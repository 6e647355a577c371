//! The envelope codec: serializes requests and responses to length-delimited
//! binary frames and parses frames back, failing explicitly on malformed
//! bytes. Encoding is total and injective over well-formed messages; decoding
//! inverts it exactly, so the codec performs no I/O and holds no state.
//!
//! Wire form: one tag byte naming the variant, then zero or more fields,
//! each a little-endian 8-byte length followed by that many payload bytes.

use vstd::prelude::*;
use vstd::bytes::*;
use vstd::slice::{slice_subrange, slice_to_vec};

use crate::messages::{DecodeError, ReqModel, Request, RespModel, Response};

verus! {

/// One length-delimited field: 8-byte little-endian length, then the payload.
pub open spec fn len_field(p: Seq<u8>) -> Seq<u8> {
    spec_u64_to_le_bytes(p.len() as u64) + p
}

/// A request model whose payload length is representable on the wire.
pub open spec fn req_wf(m: ReqModel) -> bool {
    match m {
        ReqModel::Handshake => true,
        ReqModel::ExecuteCode(code) => code.len() <= u64::MAX,
    }
}

/// A response model whose payload lengths are representable on the wire.
pub open spec fn resp_wf(m: RespModel) -> bool {
    match m {
        RespModel::HandshakeOk { version, info } => version.len() <= u64::MAX && info.len()
            <= u64::MAX,
        RespModel::HandshakeError { message } => message.len() <= u64::MAX,
        RespModel::ExecuteSuccess { message } => message.len() <= u64::MAX,
        RespModel::ExecuteError { message } => message.len() <= u64::MAX,
        RespModel::ExecuteFailure { message } => message.len() <= u64::MAX,
        RespModel::GetDevices => true,
        RespModel::GetDeviceInfo => true,
    }
}

/// The exact bytes that encode a request.
pub open spec fn request_bytes(m: ReqModel) -> Seq<u8> {
    match m {
        ReqModel::Handshake => seq![1u8],
        ReqModel::ExecuteCode(code) => seq![2u8] + len_field(code),
    }
}

/// The exact bytes that encode a response.
pub open spec fn response_bytes(m: RespModel) -> Seq<u8> {
    match m {
        RespModel::HandshakeOk { version, info } => seq![1u8] + len_field(version)
            + len_field(info),
        RespModel::HandshakeError { message } => seq![2u8] + len_field(message),
        RespModel::ExecuteSuccess { message } => seq![3u8] + len_field(message),
        RespModel::ExecuteError { message } => seq![4u8] + len_field(message),
        RespModel::ExecuteFailure { message } => seq![5u8] + len_field(message),
        RespModel::GetDevices => seq![6u8],
        RespModel::GetDeviceInfo => seq![7u8],
    }
}

/// Parse one length-delimited field of `b` starting at `pos`: the payload and
/// the position just past it, or `None` if the input ends too early.
pub open spec fn take_field(b: Seq<u8>, pos: int) -> Option<(Seq<u8>, int)> {
    if pos + 8 <= b.len() {
        let l = spec_u64_from_le_bytes(b.subrange(pos, pos + 8)) as int;
        if pos + 8 + l <= b.len() {
            Some((b.subrange(pos + 8, pos + 8 + l), pos + 8 + l))
        } else {
            None
        }
    } else {
        None
    }
}

/// The unique reading of `b` as a request envelope.
pub open spec fn spec_decode_request(b: Seq<u8>) -> Result<ReqModel, DecodeError> {
    if b.len() == 0 {
        Err(DecodeError::Truncated)
    } else if b[0] == 1 {
        if b.len() == 1 {
            Ok(ReqModel::Handshake)
        } else {
            Err(DecodeError::TrailingBytes)
        }
    } else if b[0] == 2 {
        match take_field(b, 1) {
            Some((code, end)) => if end == b.len() {
                Ok(ReqModel::ExecuteCode(code))
            } else {
                Err(DecodeError::TrailingBytes)
            },
            None => Err(DecodeError::Truncated),
        }
    } else {
        Err(DecodeError::UnknownTag)
    }
}

/// The unique reading of `b` as a response envelope.
pub open spec fn spec_decode_response(b: Seq<u8>) -> Result<RespModel, DecodeError> {
    if b.len() == 0 {
        Err(DecodeError::Truncated)
    } else if b[0] == 1 {
        match take_field(b, 1) {
            Some((version, mid)) => match take_field(b, mid) {
                Some((info, end)) => if end == b.len() {
                    Ok(RespModel::HandshakeOk { version, info })
                } else {
                    Err(DecodeError::TrailingBytes)
                },
                None => Err(DecodeError::Truncated),
            },
            None => Err(DecodeError::Truncated),
        }
    } else if 2 <= b[0] && b[0] <= 5 {
        match take_field(b, 1) {
            Some((message, end)) => if end == b.len() {
                Ok(
                    if b[0] == 2 {
                        RespModel::HandshakeError { message }
                    } else if b[0] == 3 {
                        RespModel::ExecuteSuccess { message }
                    } else if b[0] == 4 {
                        RespModel::ExecuteError { message }
                    } else {
                        RespModel::ExecuteFailure { message }
                    },
                )
            } else {
                Err(DecodeError::TrailingBytes)
            },
            None => Err(DecodeError::Truncated),
        }
    } else if b[0] == 6 {
        if b.len() == 1 {
            Ok(RespModel::GetDevices)
        } else {
            Err(DecodeError::TrailingBytes)
        }
    } else if b[0] == 7 {
        if b.len() == 1 {
            Ok(RespModel::GetDeviceInfo)
        } else {
            Err(DecodeError::TrailingBytes)
        }
    } else {
        Err(DecodeError::UnknownTag)
    }
}

/// A field parses back to exactly the payload it was built from, whatever
/// bytes follow it.
proof fn lemma_take_field_of_encoding(b: Seq<u8>, pos: int, p: Seq<u8>, rest: Seq<u8>)
    requires
        0 <= pos <= b.len(),
        p.len() <= u64::MAX,
        b.subrange(pos, b.len() as int) == len_field(p) + rest,
    ensures
        take_field(b, pos) == Some((p, pos + 8 + p.len())),
{
    lemma_auto_spec_u64_to_from_le_bytes();
    let suffix = b.subrange(pos, b.len() as int);
    let lb = spec_u64_to_le_bytes(p.len() as u64);
    assert(lb.len() == 8);
    assert(suffix.len() == 8 + p.len() + rest.len());
    assert(b.len() == pos + 8 + p.len() + rest.len());
    assert(b.subrange(pos, pos + 8) =~= lb) by {
        assert forall|i: int| 0 <= i < 8 implies b.subrange(pos, pos + 8)[i] == lb[i] by {
            assert(b.subrange(pos, pos + 8)[i] == b[pos + i]);
            assert(suffix[i] == b[pos + i]);
            assert(suffix[i] == (len_field(p) + rest)[i]);
            assert((len_field(p) + rest)[i] == len_field(p)[i]);
            assert(len_field(p)[i] == lb[i]);
        }
    }
    assert(spec_u64_from_le_bytes(b.subrange(pos, pos + 8)) == p.len() as u64);
    assert(pos + 8 + p.len() <= b.len());
    assert(b.subrange(pos + 8, pos + 8 + p.len() as int) =~= p) by {
        assert forall|i: int|
            0 <= i < p.len() implies b.subrange(pos + 8, pos + 8 + p.len() as int)[i] == p[i] by {
            assert(b.subrange(pos + 8, pos + 8 + p.len() as int)[i] == b[pos + 8 + i]);
            assert(suffix[8 + i] == b[pos + 8 + i]);
            assert(suffix[8 + i] == (len_field(p) + rest)[8 + i]);
            assert((len_field(p) + rest)[8 + i] == len_field(p)[8 + i]);
            assert(len_field(p)[8 + i] == p[i]);
        }
    }
}

/// A successfully parsed field occupies exactly the bytes of its encoding.
proof fn lemma_take_field_sound(b: Seq<u8>, pos: int)
    requires
        0 <= pos,
    ensures
        take_field(b, pos) matches Some(pe) ==> (pe.1 == pos + 8 + pe.0.len()
            && pe.0.len() <= u64::MAX && pos + 8 <= pe.1 <= b.len()
            && b.subrange(pos, pe.1) == len_field(pe.0)),
{
    lemma_auto_spec_u64_to_from_le_bytes();
    match take_field(b, pos) {
        None => {},
        Some(pe) => {
            let s8 = b.subrange(pos, pos + 8);
            let l = spec_u64_from_le_bytes(s8) as int;
            let p = b.subrange(pos + 8, pos + 8 + l);
            assert(p.len() == l);
            assert(spec_u64_to_le_bytes(spec_u64_from_le_bytes(s8)) == s8);
            assert(p.len() as u64 == spec_u64_from_le_bytes(s8));
            assert(spec_u64_to_le_bytes(p.len() as u64) == s8);
            assert(len_field(p).len() == 8 + l);
            assert(b.subrange(pos, pe.1) =~= len_field(p)) by {
                assert forall|i: int|
                    0 <= i < 8 + l implies b.subrange(pos, pos + 8 + l)[i] == len_field(p)[i] by {
                    assert(b.subrange(pos, pos + 8 + l)[i] == b[pos + i]);
                    if i < 8 {
                        assert(len_field(p)[i] == s8[i]);
                        assert(s8[i] == b[pos + i]);
                    } else {
                        assert(len_field(p)[i] == p[i - 8]);
                        assert(p[i - 8] == b[pos + i]);
                    }
                }
            }
        },
    }
}

/// The bytes after a leading tag byte are exactly the encoded fields.
proof fn lemma_split_tag(b: Seq<u8>, t: u8, x: Seq<u8>)
    requires
        b == seq![t] + x,
    ensures
        b[0] == t,
        b.len() == 1 + x.len(),
        b.subrange(1, b.len() as int) == x,
{
    assert(b.subrange(1, b.len() as int) =~= x) by {
        assert forall|i: int| 0 <= i < x.len() implies b.subrange(1, b.len() as int)[i]
            == x[i] by {
            assert(b.subrange(1, b.len() as int)[i] == b[1 + i]);
            assert(b[1 + i] == (seq![t] + x)[1 + i]);
        }
    }
}

/// Codec fidelity for requests: decoding an encoded request loses nothing.
pub proof fn lemma_request_round_trip(m: ReqModel)
    requires
        req_wf(m),
    ensures
        spec_decode_request(request_bytes(m)) == Ok::<ReqModel, DecodeError>(m),
{
    lemma_auto_spec_u64_to_from_le_bytes();
    let b = request_bytes(m);
    match m {
        ReqModel::Handshake => {
            assert(b.len() == 1 && b[0] == 1);
        },
        ReqModel::ExecuteCode(code) => {
            lemma_split_tag(b, 2, len_field(code));
            assert(b.subrange(1, b.len() as int) =~= len_field(code) + Seq::<u8>::empty());
            lemma_take_field_of_encoding(b, 1, code, Seq::<u8>::empty());
        },
    }
}

/// Codec fidelity for responses: decoding an encoded response loses nothing.
pub proof fn lemma_response_round_trip(m: RespModel)
    requires
        resp_wf(m),
    ensures
        spec_decode_response(response_bytes(m)) == Ok::<RespModel, DecodeError>(m),
{
    lemma_auto_spec_u64_to_from_le_bytes();
    let b = response_bytes(m);
    match m {
        RespModel::HandshakeOk { version, info } => {
            let x = len_field(version) + len_field(info);
            assert(b =~= seq![1u8] + x);
            lemma_split_tag(b, 1, x);
            lemma_take_field_of_encoding(b, 1, version, len_field(info));
            let mid = 1 + 8 + version.len() as int;
            assert(b.subrange(mid, b.len() as int) =~= len_field(info) + Seq::<u8>::empty()) by {
                assert forall|i: int|
                    0 <= i < b.len() - mid implies b.subrange(mid, b.len() as int)[i]
                    == len_field(info)[i] by {
                    assert(b.subrange(mid, b.len() as int)[i] == b[mid + i]);
                    assert(b[mid + i] == (seq![1u8] + x)[mid + i]);
                    assert((seq![1u8] + x)[mid + i] == x[mid + i - 1]);
                    assert(x[mid + i - 1] == len_field(info)[i]);
                }
            }
            lemma_take_field_of_encoding(b, mid, info, Seq::<u8>::empty());
        },
        RespModel::HandshakeError { message } => {
            lemma_split_tag(b, 2, len_field(message));
            assert(b.subrange(1, b.len() as int) =~= len_field(message) + Seq::<u8>::empty());
            lemma_take_field_of_encoding(b, 1, message, Seq::<u8>::empty());
        },
        RespModel::ExecuteSuccess { message } => {
            lemma_split_tag(b, 3, len_field(message));
            assert(b.subrange(1, b.len() as int) =~= len_field(message) + Seq::<u8>::empty());
            lemma_take_field_of_encoding(b, 1, message, Seq::<u8>::empty());
        },
        RespModel::ExecuteError { message } => {
            lemma_split_tag(b, 4, len_field(message));
            assert(b.subrange(1, b.len() as int) =~= len_field(message) + Seq::<u8>::empty());
            lemma_take_field_of_encoding(b, 1, message, Seq::<u8>::empty());
        },
        RespModel::ExecuteFailure { message } => {
            lemma_split_tag(b, 5, len_field(message));
            assert(b.subrange(1, b.len() as int) =~= len_field(message) + Seq::<u8>::empty());
            lemma_take_field_of_encoding(b, 1, message, Seq::<u8>::empty());
        },
        RespModel::GetDevices => {
            assert(b.len() == 1 && b[0] == 6);
        },
        RespModel::GetDeviceInfo => {
            assert(b.len() == 1 && b[0] == 7);
        },
    }
}

/// Rebuild a frame from its tag byte and one parsed field.
proof fn lemma_unsplit_tag(b: Seq<u8>, t: u8, x: Seq<u8>)
    requires
        b.len() >= 1,
        b[0] == t,
        b.subrange(1, b.len() as int) == x,
    ensures
        b == seq![t] + x,
{
    assert(b =~= seq![t] + x) by {
        assert forall|i: int| 0 <= i < b.len() implies b[i] == (seq![t] + x)[i] by {
            if i >= 1 {
                assert(x[i - 1] == b.subrange(1, b.len() as int)[i - 1]);
            }
        }
    }
}

/// Decoding is sound for requests: a successful parse names the unique
/// request whose encoding is exactly the input.
pub proof fn lemma_request_decode_sound(b: Seq<u8>)
    ensures
        spec_decode_request(b) matches Ok(m) ==> req_wf(m) && b == request_bytes(m),
{
    match spec_decode_request(b) {
        Err(_) => {},
        Ok(m) => match m {
            ReqModel::Handshake => {
                assert(b =~= request_bytes(m));
            },
            ReqModel::ExecuteCode(code) => {
                lemma_take_field_sound(b, 1);
                lemma_unsplit_tag(b, 2, len_field(code));
            },
        },
    }
}

/// Decoding is sound for responses: a successful parse names the unique
/// response whose encoding is exactly the input.
pub proof fn lemma_response_decode_sound(b: Seq<u8>)
    ensures
        spec_decode_response(b) matches Ok(m) ==> resp_wf(m) && b == response_bytes(m),
{
    match spec_decode_response(b) {
        Err(_) => {},
        Ok(m) => match m {
            RespModel::HandshakeOk { version, info } => {
                lemma_take_field_sound(b, 1);
                let mid = 1 + 8 + version.len() as int;
                lemma_take_field_sound(b, mid);
                assert(b.subrange(1, b.len() as int) =~= len_field(version) + len_field(info)) by {
                    assert(b.subrange(1, mid) == len_field(version));
                    assert(b.subrange(mid, b.len() as int) == len_field(info));
                    assert forall|i: int|
                        0 <= i < b.len() - 1 implies b.subrange(1, b.len() as int)[i]
                        == (len_field(version) + len_field(info))[i] by {
                        assert(b.subrange(1, b.len() as int)[i] == b[1 + i]);
                        if i < mid - 1 {
                            assert(b.subrange(1, mid)[i] == b[1 + i]);
                        } else {
                            assert(b.subrange(mid, b.len() as int)[i - (mid - 1)] == b[1 + i]);
                        }
                    }
                }
                lemma_unsplit_tag(b, 1, len_field(version) + len_field(info));
            },
            RespModel::HandshakeError { message } => {
                lemma_take_field_sound(b, 1);
                lemma_unsplit_tag(b, 2, len_field(message));
            },
            RespModel::ExecuteSuccess { message } => {
                lemma_take_field_sound(b, 1);
                lemma_unsplit_tag(b, 3, len_field(message));
            },
            RespModel::ExecuteError { message } => {
                lemma_take_field_sound(b, 1);
                lemma_unsplit_tag(b, 4, len_field(message));
            },
            RespModel::ExecuteFailure { message } => {
                lemma_take_field_sound(b, 1);
                lemma_unsplit_tag(b, 5, len_field(message));
            },
            RespModel::GetDevices => {
                assert(b =~= seq![6u8]);
            },
            RespModel::GetDeviceInfo => {
                assert(b =~= seq![7u8]);
            },
        },
    }
}

/// Codec fidelity, executable form: every request survives an
/// encode-then-decode loopback with its variant and payload intact.
pub fn request_loopback(r: &Request) -> (out: Request)
    ensures
        out@ == r@,
{
    let bytes = encode_request(r);
    proof {
        lemma_request_round_trip(r@);
    }
    match decode_request(&bytes) {
        Ok(q) => q,
        Err(_) => vstd::pervasive::unreached(),
    }
}

/// Codec fidelity, executable form, for responses: the same loopback on the
/// mirrored envelope mechanics.
pub fn response_loopback(r: &Response) -> (out: Response)
    ensures
        out@ == r@,
{
    let bytes = encode_response(r);
    proof {
        lemma_response_round_trip(r@);
    }
    match decode_response(&bytes) {
        Ok(q) => q,
        Err(_) => vstd::pervasive::unreached(),
    }
}

/// Encoding is injective: distinct well-formed requests never share bytes.
pub proof fn lemma_request_encoding_injective(m1: ReqModel, m2: ReqModel)
    requires
        req_wf(m1),
        req_wf(m2),
        request_bytes(m1) == request_bytes(m2),
    ensures
        m1 == m2,
{
    lemma_request_round_trip(m1);
    lemma_request_round_trip(m2);
}

/// Append one length-delimited field to an output frame.
fn write_len_field(out: &mut Vec<u8>, p: &Vec<u8>)
    ensures
        final(out)@ == old(out)@ + len_field(p@),
        p@.len() <= u64::MAX,
{
    let mut lb = u64_to_le_bytes(p.len() as u64);
    out.append(&mut lb);
    let mut payload = slice_to_vec(p.as_slice());
    out.append(&mut payload);
    assert(out@ =~= old(out)@ + len_field(p@));
}

/// Serialize a request. Total: every request has an encoding.
pub fn encode_request(r: &Request) -> (out: Vec<u8>)
    ensures
        out@ == request_bytes(r@),
        req_wf(r@),
{
    let mut out: Vec<u8> = Vec::new();
    match r {
        Request::Handshake => {
            out.push(1);
            assert(out@ =~= request_bytes(r@));
        },
        Request::ExecuteCode { code } => {
            out.push(2);
            write_len_field(&mut out, code);
            assert(out@ =~= request_bytes(r@));
        },
    }
    out
}

/// Serialize a response. Total: every response has an encoding.
pub fn encode_response(r: &Response) -> (out: Vec<u8>)
    ensures
        out@ == response_bytes(r@),
        resp_wf(r@),
{
    let mut out: Vec<u8> = Vec::new();
    match r {
        Response::HandshakeOk { version, info } => {
            out.push(1);
            write_len_field(&mut out, version);
            write_len_field(&mut out, info);
            assert(out@ =~= response_bytes(r@));
        },
        Response::HandshakeError { message } => {
            out.push(2);
            write_len_field(&mut out, message);
            assert(out@ =~= response_bytes(r@));
        },
        Response::ExecuteSuccess { message } => {
            out.push(3);
            write_len_field(&mut out, message);
            assert(out@ =~= response_bytes(r@));
        },
        Response::ExecuteError { message } => {
            out.push(4);
            write_len_field(&mut out, message);
            assert(out@ =~= response_bytes(r@));
        },
        Response::ExecuteFailure { message } => {
            out.push(5);
            write_len_field(&mut out, message);
            assert(out@ =~= response_bytes(r@));
        },
        Response::GetDevices => {
            out.push(6);
            assert(out@ =~= response_bytes(r@));
        },
        Response::GetDeviceInfo => {
            out.push(7);
            assert(out@ =~= response_bytes(r@));
        },
    }
    out
}

/// Read one length-delimited field of `b` at `pos`, as `take_field` says.
fn read_len_field(b: &Vec<u8>, pos: usize) -> (res: Option<(Vec<u8>, usize)>)
    requires
        pos <= b@.len(),
    ensures
        res matches Some(pe) ==> take_field(b@, pos as int) == Some((pe.0@, pe.1 as int)),
        res is None ==> take_field(b@, pos as int) is None,
{
    if b.len() - pos < 8 {
        return None;
    }
    let len_slice = slice_subrange(b.as_slice(), pos, pos + 8);
    let l = u64_from_le_bytes(len_slice);
    let rem = (b.len() - pos - 8) as u64;
    if l > rem {
        return None;
    }
    let l_us = l as usize;
    let payload = slice_to_vec(slice_subrange(b.as_slice(), pos + 8, pos + 8 + l_us));
    Some((payload, pos + 8 + l_us))
}

/// Parse request envelope bytes, exactly as `spec_decode_request` reads them.
pub fn decode_request(b: &Vec<u8>) -> (res: Result<Request, DecodeError>)
    ensures
        res matches Ok(r) ==> spec_decode_request(b@) == Ok::<ReqModel, DecodeError>(r@),
        res matches Ok(r) ==> b@ == request_bytes(r@) && req_wf(r@),
        res matches Err(e) ==> spec_decode_request(b@) == Err::<ReqModel, DecodeError>(e),
{
    proof {
        lemma_request_decode_sound(b@);
    }
    if b.len() == 0 {
        return Err(DecodeError::Truncated);
    }
    let tag = b[0];
    if tag == 1 {
        if b.len() == 1 {
            Ok(Request::Handshake)
        } else {
            Err(DecodeError::TrailingBytes)
        }
    } else if tag == 2 {
        match read_len_field(b, 1) {
            Some((code, end)) => {
                if end == b.len() {
                    Ok(Request::ExecuteCode { code })
                } else {
                    Err(DecodeError::TrailingBytes)
                }
            },
            None => Err(DecodeError::Truncated),
        }
    } else {
        Err(DecodeError::UnknownTag)
    }
}

/// Parse response envelope bytes, exactly as `spec_decode_response` reads
/// them.
pub fn decode_response(b: &Vec<u8>) -> (res: Result<Response, DecodeError>)
    ensures
        res matches Ok(r) ==> spec_decode_response(b@) == Ok::<RespModel, DecodeError>(r@),
        res matches Ok(r) ==> b@ == response_bytes(r@) && resp_wf(r@),
        res matches Err(e) ==> spec_decode_response(b@) == Err::<RespModel, DecodeError>(e),
{
    proof {
        lemma_response_decode_sound(b@);
    }
    if b.len() == 0 {
        return Err(DecodeError::Truncated);
    }
    let tag = b[0];
    if tag == 1 {
        match read_len_field(b, 1) {
            Some((version, mid)) => match read_len_field(b, mid) {
                Some((info, end)) => {
                    if end == b.len() {
                        Ok(Response::HandshakeOk { version, info })
                    } else {
                        Err(DecodeError::TrailingBytes)
                    }
                },
                None => Err(DecodeError::Truncated),
            },
            None => Err(DecodeError::Truncated),
        }
    } else if 2 <= tag && tag <= 5 {
        match read_len_field(b, 1) {
            Some((message, end)) => {
                if end == b.len() {
                    Ok(
                        if tag == 2 {
                            Response::HandshakeError { message }
                        } else if tag == 3 {
                            Response::ExecuteSuccess { message }
                        } else if tag == 4 {
                            Response::ExecuteError { message }
                        } else {
                            Response::ExecuteFailure { message }
                        },
                    )
                } else {
                    Err(DecodeError::TrailingBytes)
                }
            },
            None => Err(DecodeError::Truncated),
        }
    } else if tag == 6 {
        if b.len() == 1 {
            Ok(Response::GetDevices)
        } else {
            Err(DecodeError::TrailingBytes)
        }
    } else if tag == 7 {
        if b.len() == 1 {
            Ok(Response::GetDeviceInfo)
        } else {
            Err(DecodeError::TrailingBytes)
        }
    } else {
        Err(DecodeError::UnknownTag)
    }
}

} // verus!
