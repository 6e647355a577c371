//! The typed protocol messages: requests the client sends, responses the
//! server answers with, and the error raised on malformed envelope bytes.

use vstd::prelude::*;

verus! {

/// A request sent from the client to the server. Exactly one variant is
/// populated per instance; a fresh value is constructed per send.
#[derive(Debug, Clone, PartialEq)]
pub enum Request {
    /// The mandatory first exchange, carrying no payload.
    Handshake,
    /// One user-submitted expression, as raw text bytes.
    ExecuteCode { code: Vec<u8> },
}

/// Mathematical model of a `Request`.
pub enum ReqModel {
    Handshake,
    ExecuteCode(Seq<u8>),
}

impl View for Request {
    type V = ReqModel;

    open spec fn view(&self) -> ReqModel {
        match self {
            Request::Handshake => ReqModel::Handshake,
            Request::ExecuteCode { code } => ReqModel::ExecuteCode(code@),
        }
    }
}

/// A response received from the server. The device-related variants are
/// well-formed protocol messages that this client never asks for; they are
/// recognized so that they can be reported as unexpected-but-well-formed.
#[derive(Debug, Clone, PartialEq)]
pub enum Response {
    HandshakeOk { version: Vec<u8>, info: Vec<u8> },
    HandshakeError { message: Vec<u8> },
    ExecuteSuccess { message: Vec<u8> },
    ExecuteError { message: Vec<u8> },
    ExecuteFailure { message: Vec<u8> },
    GetDevices,
    GetDeviceInfo,
}

/// Mathematical model of a `Response`.
pub enum RespModel {
    HandshakeOk { version: Seq<u8>, info: Seq<u8> },
    HandshakeError { message: Seq<u8> },
    ExecuteSuccess { message: Seq<u8> },
    ExecuteError { message: Seq<u8> },
    ExecuteFailure { message: Seq<u8> },
    GetDevices,
    GetDeviceInfo,
}

impl View for Response {
    type V = RespModel;

    open spec fn view(&self) -> RespModel {
        match self {
            Response::HandshakeOk { version, info } => RespModel::HandshakeOk {
                version: version@,
                info: info@,
            },
            Response::HandshakeError { message } => RespModel::HandshakeError { message: message@ },
            Response::ExecuteSuccess { message } => RespModel::ExecuteSuccess { message: message@ },
            Response::ExecuteError { message } => RespModel::ExecuteError { message: message@ },
            Response::ExecuteFailure { message } => RespModel::ExecuteFailure { message: message@ },
            Response::GetDevices => RespModel::GetDevices,
            Response::GetDeviceInfo => RespModel::GetDeviceInfo,
        }
    }
}

/// Raised by the codec on bytes that are not a well-formed envelope.
/// Malformed input never yields a partial or garbage message.
#[derive(Debug, Clone, Copy, PartialEq, Eq, Structural)]
pub enum DecodeError {
    /// The input ends before the envelope is complete.
    Truncated,
    /// The leading tag byte names no known message variant.
    UnknownTag,
    /// Well-formed envelope followed by extra bytes.
    TrailingBytes,
}

} // verus!
