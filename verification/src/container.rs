//! The container framing: four magic bytes, a length-prefixed search
//! string, a containment flag, and the run-length-encoded payload.

use vstd::prelude::*;
use vstd::string::StrSliceExecFns;
use vstd::utf8::{decode_utf8, encode_utf8, encode_utf8_decode_utf8, encode_utf8_valid_utf8,
    valid_utf8};

use crate::rle::{counts_ok, lemma_encode_counts_ok, lemma_rle_round_trip, rle_decode_opt,
    rle_decode_spec, rle_encode, rle_encode_spec, runs_bounded};
use crate::search::{contains_spec, contains_substring};
use crate::text::string_from_utf8;

verus! {

/// The ways building or reading a container can fail. The first two are
/// reported by callers that do the file I/O; the codec itself reports only
/// the last three.
#[derive(Clone, Copy, Debug, PartialEq, Eq, Structural)]
pub enum ContainerError {
    /// The path does not exist.
    NotFound,
    /// Opening, reading or writing failed for another reason.
    PermissionOrIoFailure,
    /// The magic bytes are wrong, or the byte image is too short to hold
    /// the header it declares.
    InvalidFormat,
    /// The stored search string or payload is not valid UTF-8, or a payload
    /// count position holds no digit.
    InvalidEncoding,
    /// The search string is longer than 255 UTF-8 bytes, so its length does
    /// not fit the one-byte length field.
    SearchStringTooLong,
}

/// The four magic bytes spelling "DIDI" that begin every container.
pub open spec fn magic_seq() -> Seq<u8> {
    seq![68u8, 73u8, 68u8, 73u8]
}

/// The header fits in the byte image: magic, length byte, as many
/// search-string bytes as the length byte declares, and the flag byte.
pub open spec fn frame_ok(b: Seq<u8>) -> bool {
    b.len() >= 6 && b.subrange(0, 4) == magic_seq() && 6 + (b[4] as int) <= b.len()
}

/// The stored search-string bytes.
pub open spec fn search_field(b: Seq<u8>) -> Seq<u8> {
    b.subrange(5, 5 + (b[4] as int))
}

/// The stored containment flag; any nonzero byte counts as true.
pub open spec fn flag_field(b: Seq<u8>) -> bool {
    b[5 + (b[4] as int)] != 0
}

/// The stored encoded payload: every byte after the flag.
pub open spec fn payload_field(b: Seq<u8>) -> Seq<u8> {
    b.subrange(6 + (b[4] as int), b.len() as int)
}

/// The header the writer produces: magic, search-string length, the
/// search-string bytes, and the flag saying whether the search string
/// occurs in the original (not the encoded) data.
pub open spec fn header_bytes(data: Seq<char>, search: Seq<char>) -> Seq<u8>
    recommends
        encode_utf8(search).len() <= 255,
{
    magic_seq() + seq![encode_utf8(search).len() as u8] + encode_utf8(search) + seq![
        (if contains_spec(data, search) {
            1u8
        } else {
            0u8
        }),
    ]
}

/// The full byte image the writer produces: the header followed by the
/// run-length-encoded payload as UTF-8 text.
pub open spec fn container_bytes(data: Seq<char>, search: Seq<char>) -> Seq<u8> {
    header_bytes(data, search) + encode_utf8(rle_encode_spec(data))
}

/// What a full read of the byte image `b` yields: the decoded data, the
/// stored search string and the stored flag, or the first error met.
pub open spec fn read_spec(b: Seq<u8>) -> Result<(Seq<char>, Seq<char>, bool), ContainerError> {
    if !frame_ok(b) {
        Err(ContainerError::InvalidFormat)
    } else if !valid_utf8(search_field(b)) {
        Err(ContainerError::InvalidEncoding)
    } else if !valid_utf8(payload_field(b)) {
        Err(ContainerError::InvalidEncoding)
    } else if !counts_ok(decode_utf8(payload_field(b))) {
        Err(ContainerError::InvalidEncoding)
    } else {
        Ok(
            (
                rle_decode_spec(decode_utf8(payload_field(b))),
                decode_utf8(search_field(b)),
                flag_field(b),
            ),
        )
    }
}

/// What a metadata-only read of the byte image `b` yields: the stored
/// search string and flag, or the first error met. The payload is not
/// touched, so `b` may also be just the header portion of a container.
pub open spec fn sniff_spec(b: Seq<u8>) -> Result<(Seq<char>, bool), ContainerError> {
    if !frame_ok(b) {
        Err(ContainerError::InvalidFormat)
    } else if !valid_utf8(search_field(b)) {
        Err(ContainerError::InvalidEncoding)
    } else {
        Ok((decode_utf8(search_field(b)), flag_field(b)))
    }
}

/// The executable full-read result `r` agrees with the specification-level
/// result `s`.
pub open spec fn read_agrees(
    r: Result<(String, String, bool), ContainerError>,
    s: Result<(Seq<char>, Seq<char>, bool), ContainerError>,
) -> bool {
    match (r, s) {
        (Ok(t), Ok(u)) => t.0@ == u.0 && t.1@ == u.1 && t.2 == u.2,
        (Err(e), Err(f)) => e == f,
        _ => false,
    }
}

/// The executable sniff result `r` agrees with the specification-level
/// result `s`.
pub open spec fn sniff_agrees(
    r: Result<(String, bool), ContainerError>,
    s: Result<(Seq<char>, bool), ContainerError>,
) -> bool {
    match (r, s) {
        (Ok(t), Ok(u)) => t.0@ == u.0 && t.1 == u.1,
        (Err(e), Err(f)) => e == f,
        _ => false,
    }
}

/// Serializes a container for `data` with `search` as the recorded search
/// string: magic bytes, search-string length and bytes, the containment
/// flag computed from `data` itself, then the run-length-encoded payload.
/// Fails, before producing anything, exactly when the search string does
/// not fit the one-byte length field.
pub fn build_container(data: &str, search: &str) -> (r: Result<Vec<u8>, ContainerError>)
    ensures
        r is Ok <==> encode_utf8(search@).len() <= 255,
        r matches Ok(v) ==> v@ == container_bytes(data@, search@),
        r matches Err(e) ==> e == ContainerError::SearchStringTooLong,
{
    let sb = search.as_bytes_vec();
    if sb.len() > 255 {
        return Err(ContainerError::SearchStringTooLong);
    }
    let flag = contains_substring(data, search);
    let encoded = rle_encode(data);
    let pb = encoded.as_str().as_bytes_vec();
    let mut out: Vec<u8> = Vec::new();
    out.push(68);
    out.push(73);
    out.push(68);
    out.push(73);
    out.push(sb.len() as u8);
    let mut k: usize = 0;
    while k < sb.len()
        invariant
            k <= sb.len(),
            sb.len() <= 255,
            out@ == magic_seq() + seq![sb.len() as u8] + sb@.take(k as int),
        decreases sb.len() - k,
    {
        let b = sb[k];
        out.push(b);
        proof {
            assert(out@ =~= magic_seq() + seq![sb@.len() as u8] + sb@.take(k + 1 as int));
        }
        k = k + 1;
    }
    proof {
        assert(sb@.take(sb@.len() as int) =~= sb@);
    }
    out.push(if flag {
        1
    } else {
        0
    });
    let mut k2: usize = 0;
    while k2 < pb.len()
        invariant
            k2 <= pb.len(),
            out@ == header_bytes(data@, search@) + pb@.take(k2 as int),
        decreases pb.len() - k2,
    {
        let b = pb[k2];
        out.push(b);
        proof {
            assert(out@ =~= header_bytes(data@, search@) + pb@.take(k2 + 1 as int));
        }
        k2 = k2 + 1;
    }
    proof {
        assert(pb@.take(pb@.len() as int) =~= pb@);
        assert(out@ =~= container_bytes(data@, search@));
    }
    Ok(out)
}

/// Copies `bytes[start .. start + count]` into a fresh vector.
fn copy_range(bytes: &Vec<u8>, start: usize, count: usize) -> (r: Vec<u8>)
    requires
        start + count <= bytes.len(),
    ensures
        r@ == bytes@.subrange(start as int, start as int + count as int),
{
    let mut r: Vec<u8> = Vec::new();
    let mut k: usize = 0;
    while k < count
        invariant
            start + count <= bytes.len(),
            k <= count,
            r@ == bytes@.subrange(start as int, start as int + k as int),
        decreases count - k,
    {
        let b = bytes[start + k];
        r.push(b);
        proof {
            assert(r@ =~= bytes@.subrange(start as int, start as int + (k + 1) as int));
        }
        k = k + 1;
    }
    r
}

/// Parses a full container byte image: validates the magic bytes and the
/// declared header length, then returns the decoded payload, the stored
/// search string and the stored flag.
pub fn parse_container(bytes: &Vec<u8>) -> (r: Result<(String, String, bool), ContainerError>)
    ensures
        read_agrees(r, read_spec(bytes@)),
{
    if bytes.len() < 6 {
        return Err(ContainerError::InvalidFormat);
    }
    let magic_good = bytes[0] == 68 && bytes[1] == 73 && bytes[2] == 68 && bytes[3] == 73;
    proof {
        if magic_good {
            assert(bytes@.subrange(0, 4) =~= magic_seq());
        } else {
            assert(bytes@.subrange(0, 4)[0] == bytes@[0]);
            assert(bytes@.subrange(0, 4)[1] == bytes@[1]);
            assert(bytes@.subrange(0, 4)[2] == bytes@[2]);
            assert(bytes@.subrange(0, 4)[3] == bytes@[3]);
            assert(bytes@.subrange(0, 4) != magic_seq());
        }
    }
    if !magic_good {
        return Err(ContainerError::InvalidFormat);
    }
    let n = bytes[4] as usize;
    if bytes.len() < 6 + n {
        return Err(ContainerError::InvalidFormat);
    }
    let sb = copy_range(bytes, 5, n);
    proof {
        assert(sb@ == search_field(bytes@));
    }
    let search = match string_from_utf8(sb) {
        Some(s) => s,
        None => {
            return Err(ContainerError::InvalidEncoding);
        },
    };
    let flag = bytes[5 + n] != 0;
    let plen = bytes.len() - (6 + n);
    let pb = copy_range(bytes, 6 + n, plen);
    proof {
        assert(pb@ == payload_field(bytes@));
    }
    let payload = match string_from_utf8(pb) {
        Some(s) => s,
        None => {
            return Err(ContainerError::InvalidEncoding);
        },
    };
    let decoded = match rle_decode_opt(payload.as_str()) {
        Some(d) => d,
        None => {
            return Err(ContainerError::InvalidEncoding);
        },
    };
    Ok((decoded, search, flag))
}

/// Parses only the metadata of a container byte image: the stored search
/// string and flag. The payload is never read, so `bytes` may hold just the
/// header portion, and the cost is independent of the payload size.
pub fn sniff_container(bytes: &Vec<u8>) -> (r: Result<(String, bool), ContainerError>)
    ensures
        sniff_agrees(r, sniff_spec(bytes@)),
{
    if bytes.len() < 6 {
        return Err(ContainerError::InvalidFormat);
    }
    let magic_good = bytes[0] == 68 && bytes[1] == 73 && bytes[2] == 68 && bytes[3] == 73;
    proof {
        if magic_good {
            assert(bytes@.subrange(0, 4) =~= magic_seq());
        } else {
            assert(bytes@.subrange(0, 4)[0] == bytes@[0]);
            assert(bytes@.subrange(0, 4)[1] == bytes@[1]);
            assert(bytes@.subrange(0, 4)[2] == bytes@[2]);
            assert(bytes@.subrange(0, 4)[3] == bytes@[3]);
            assert(bytes@.subrange(0, 4) != magic_seq());
        }
    }
    if !magic_good {
        return Err(ContainerError::InvalidFormat);
    }
    let n = bytes[4] as usize;
    if bytes.len() < 6 + n {
        return Err(ContainerError::InvalidFormat);
    }
    let sb = copy_range(bytes, 5, n);
    proof {
        assert(sb@ == search_field(bytes@));
    }
    let search = match string_from_utf8(sb) {
        Some(s) => s,
        None => {
            return Err(ContainerError::InvalidEncoding);
        },
    };
    let flag = bytes[5 + n] != 0;
    Ok((search, flag))
}

/// Field decomposition of a writer's header followed by any suffix.
proof fn lemma_header_fields(data: Seq<char>, search: Seq<char>, rest: Seq<u8>)
    requires
        encode_utf8(search).len() <= 255,
    ensures
        frame_ok(header_bytes(data, search) + rest),
        search_field(header_bytes(data, search) + rest) == encode_utf8(search),
        flag_field(header_bytes(data, search) + rest) == contains_spec(data, search),
        payload_field(header_bytes(data, search) + rest) == rest,
{
    let b = header_bytes(data, search) + rest;
    let q = encode_utf8(search);
    assert(b.len() == 6 + q.len() + rest.len());
    assert(b[4] == q.len() as u8);
    assert(b.subrange(0, 4) =~= magic_seq());
    assert(search_field(b) =~= q);
    assert(b[5 + q.len() as int] == (if contains_spec(data, search) {
        1u8
    } else {
        0u8
    }));
    assert(payload_field(b) =~= rest);
}

/// Sniffing any byte image that begins with a writer's header yields the
/// recorded search string and the containment flag computed from the
/// original data, whatever follows the header.
pub proof fn lemma_sniff_round_trip(data: Seq<char>, search: Seq<char>, rest: Seq<u8>)
    requires
        encode_utf8(search).len() <= 255,
    ensures
        sniff_spec(header_bytes(data, search) + rest) == Ok::<(Seq<char>, bool), ContainerError>(
            (search, contains_spec(data, search)),
        ),
{
    lemma_header_fields(data, search, rest);
    encode_utf8_valid_utf8(search);
    encode_utf8_decode_utf8(search);
}

/// Reading back a writer's byte image yields the original data, the
/// recorded search string and the containment flag, provided every run of
/// the data fits in one count digit.
pub proof fn lemma_read_round_trip(data: Seq<char>, search: Seq<char>)
    requires
        encode_utf8(search).len() <= 255,
        runs_bounded(data),
    ensures
        read_spec(container_bytes(data, search)) == Ok::<
            (Seq<char>, Seq<char>, bool),
            ContainerError,
        >((data, search, contains_spec(data, search))),
{
    let payload = encode_utf8(rle_encode_spec(data));
    lemma_header_fields(data, search, payload);
    encode_utf8_valid_utf8(search);
    encode_utf8_decode_utf8(search);
    encode_utf8_valid_utf8(rle_encode_spec(data));
    encode_utf8_decode_utf8(rle_encode_spec(data));
    lemma_encode_counts_ok(data);
    lemma_rle_round_trip(data);
}

} // verus!
