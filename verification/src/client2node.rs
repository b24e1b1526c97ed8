//! The client query protocol: a request is a tag byte and its argument, the
//! answer the length of a payload in four bytes, most significant first, and
//! the payload, which is the canonical form of a value.

use crate::codec::{decoded, Wire};
use crate::endian::{
    be32_bytes, be32_value, be64_bytes, be64_value, lemma_be32_roundtrip, lemma_be64_roundtrip,
    read_be32, read_be64, write_be32, write_be64,
};
use crate::errors::LedgerError;
use crate::network::{deserialize_data, Data, DataView};
use vstd::prelude::*;

verus! {

/// The tag of a request for the newest blocks of the chain.
pub const REQUEST_BLOCKCHAIN: u8 = 1;

/// The tag of a request for one block.
pub const REQUEST_BLOCK: u8 = 2;

/// The tag of a request for one transaction.
pub const REQUEST_TRANSACTION: u8 = 3;

/// What a client can ask a node.
#[derive(Debug)]
pub enum RequestType {
    /// The newest `height` blocks of the chain.
    Blockchain { height: u64 },
    /// The block with the given hash.
    Block { hash: Vec<u8> },
    /// The transaction with the given hash.
    Transaction { hash: Vec<u8> },
}

/// What a [`RequestType`] says.
pub enum RequestView {
    Blockchain { height: u64 },
    Block { hash: Seq<u8> },
    Transaction { hash: Seq<u8> },
}

impl View for RequestType {
    type V = RequestView;

    open spec fn view(&self) -> RequestView {
        match *self {
            RequestType::Blockchain { height } => RequestView::Blockchain { height },
            RequestType::Block { hash } => RequestView::Block { hash: hash@ },
            RequestType::Transaction { hash } => RequestView::Transaction { hash: hash@ },
        }
    }
}

/// The bytes of a request: the tag, then the height in eight bytes or the
/// hash behind its length in four bytes.
pub open spec fn request_bytes(request: RequestView) -> Seq<u8> {
    match request {
        RequestView::Blockchain { height } => seq![1u8] + be64_bytes(height),
        RequestView::Block { hash } => seq![2u8] + be32_bytes(hash.len() as u32) + hash,
        RequestView::Transaction { hash } => seq![3u8] + be32_bytes(hash.len() as u32) + hash,
    }
}

/// Whether the request can be written: a hash must fit the length field.
pub open spec fn request_fits(request: RequestView) -> bool {
    match request {
        RequestView::Blockchain { .. } => true,
        RequestView::Block { hash } => hash.len() <= u32::MAX,
        RequestView::Transaction { hash } => hash.len() <= u32::MAX,
    }
}

/// The hash behind its length at the front of `input`.
pub open spec fn announced_bytes(input: Seq<u8>) -> Option<Seq<u8>> {
    if input.len() < 4 {
        None
    } else {
        let announced = be32_value(input.subrange(0, 4));
        if input.len() - 4 < announced {
            None
        } else {
            Some(input.subrange(4, 4 + announced))
        }
    }
}

/// The request that the bytes of a connection spell, if any. Bytes after
/// the request are never read.
pub open spec fn parsed_request(bytes: Seq<u8>) -> Option<RequestView> {
    if bytes.len() < 1 {
        None
    } else if bytes[0] == 1 {
        if bytes.len() < 9 {
            None
        } else {
            Some(RequestView::Blockchain { height: be64_value(bytes.subrange(1, 9)) })
        }
    } else if bytes[0] == 2 {
        match announced_bytes(bytes.skip(1)) {
            Some(hash) => Some(RequestView::Block { hash }),
            None => None,
        }
    } else if bytes[0] == 3 {
        match announced_bytes(bytes.skip(1)) {
            Some(hash) => Some(RequestView::Transaction { hash }),
            None => None,
        }
    } else {
        None
    }
}

/// A node reads from the bytes of a request exactly that request.
pub proof fn lemma_request_roundtrip(request: RequestView)
    requires
        request_fits(request),
    ensures
        parsed_request(request_bytes(request)) == Some(request),
{
    let bytes = request_bytes(request);
    match request {
        RequestView::Blockchain { height } => {
            lemma_be64_roundtrip(height);
            assert(bytes.subrange(1, 9) =~= be64_bytes(height));
        },
        RequestView::Block { hash } => {
            let announced = hash.len() as u32;
            lemma_be32_roundtrip(announced);
            assert(bytes.skip(1).subrange(0, 4) =~= be32_bytes(announced));
            assert(bytes.skip(1).subrange(4, 4 + announced) =~= hash);
        },
        RequestView::Transaction { hash } => {
            let announced = hash.len() as u32;
            lemma_be32_roundtrip(announced);
            assert(bytes.skip(1).subrange(0, 4) =~= be32_bytes(announced));
            assert(bytes.skip(1).subrange(4, 4 + announced) =~= hash);
        },
    }
}

/// Appends `bytes` behind their length, or says `false` and appends nothing
/// where the length does not fit the length field.
fn write_announced(out: &mut Vec<u8>, bytes: &[u8]) -> (written: bool)
    ensures
        written == (bytes@.len() <= u32::MAX),
        written ==> final(out)@ == old(out)@ + be32_bytes(bytes@.len() as u32) + bytes@,
        !written ==> final(out)@ == old(out)@,
{
    if bytes.len() > u32::MAX as usize {
        return false;
    }
    let ghost before = out@;
    write_be32(out, bytes.len() as u32);
    let ghost headed = out@;
    let mut i: usize = 0;
    while i < bytes.len()
        invariant
            i <= bytes.len(),
            out@ == headed + bytes@.take(i as int),
        decreases bytes.len() - i,
    {
        out.push(bytes[i]);
        assert(out@ =~= headed + bytes@.take(i + 1));
        i += 1;
    }
    assert(bytes@.take(bytes.len() as int) =~= bytes@);
    assert(out@ =~= before + be32_bytes(bytes@.len() as u32) + bytes@);
    true
}

/// Reads the bytes behind their length that start at `pos`.
fn read_announced(input: &[u8], pos: usize) -> (result: Option<Vec<u8>>)
    requires
        pos <= input.len(),
    ensures
        match announced_bytes(input@.skip(pos as int)) {
            Some(bytes) => result matches Some(read) && read@ == bytes,
            None => result is None,
        },
{
    let ghost tail = input@.skip(pos as int);
    if input.len() - pos < 4 {
        return None;
    }
    assert(tail.subrange(0, 4) =~= input@.subrange(pos as int, pos + 4));
    let announced: u32 = read_be32(input, pos);
    if ((input.len() - pos - 4) as u64) < announced as u64 {
        return None;
    }
    let start: usize = pos + 4;
    let count: usize = announced as usize;
    let mut read: Vec<u8> = Vec::new();
    let mut i: usize = 0;
    while i < count
        invariant
            i <= count,
            start + count <= input.len(),
            read@ == input@.subrange(start as int, start + i),
        decreases count - i,
    {
        read.push(input[start + i]);
        assert(read@ =~= input@.subrange(start as int, start + i + 1));
        i += 1;
    }
    assert(read@ =~= tail.subrange(4, 4 + announced));
    Some(read)
}

/// The bytes that a client sends for a request. A hash that does not fit
/// the length field cannot be sent.
pub fn encode_request(request_type: &RequestType) -> (result: Result<Vec<u8>, LedgerError>)
    ensures
        match result {
            Ok(bytes) => request_fits(request_type@) && bytes@ == request_bytes(request_type@),
            Err(error) => !request_fits(request_type@) && error == LedgerError::SerializeError,
        },
{
    let mut bytes: Vec<u8> = Vec::new();
    match request_type {
        RequestType::Blockchain { height } => {
            bytes.push(REQUEST_BLOCKCHAIN);
            write_be64(&mut bytes, *height);
            assert(bytes@ =~= request_bytes(request_type@));
            Ok(bytes)
        },
        RequestType::Block { hash } => {
            bytes.push(REQUEST_BLOCK);
            if write_announced(&mut bytes, hash.as_slice()) {
                assert(bytes@ =~= request_bytes(request_type@));
                Ok(bytes)
            } else {
                Err(LedgerError::SerializeError)
            }
        },
        RequestType::Transaction { hash } => {
            bytes.push(REQUEST_TRANSACTION);
            if write_announced(&mut bytes, hash.as_slice()) {
                assert(bytes@ =~= request_bytes(request_type@));
                Ok(bytes)
            } else {
                Err(LedgerError::SerializeError)
            }
        },
    }
}

/// The request that a node reads from the bytes of a connection; bytes that
/// spell none are an API error.
pub fn parse_request(bytes: &[u8]) -> (result: Result<RequestType, LedgerError>)
    ensures
        match parsed_request(bytes@) {
            Some(request) => result matches Ok(read) && read@ == request,
            None => result matches Err(error) && error == LedgerError::ApiError,
        },
{
    if bytes.len() < 1 {
        return Err(LedgerError::ApiError);
    }
    let tag: u8 = bytes[0];
    if tag == REQUEST_BLOCKCHAIN {
        if bytes.len() < 9 {
            return Err(LedgerError::ApiError);
        }
        Ok(RequestType::Blockchain { height: read_be64(bytes, 1) })
    } else if tag == REQUEST_BLOCK {
        match read_announced(bytes, 1) {
            Some(hash) => Ok(RequestType::Block { hash }),
            None => Err(LedgerError::ApiError),
        }
    } else if tag == REQUEST_TRANSACTION {
        match read_announced(bytes, 1) {
            Some(hash) => Ok(RequestType::Transaction { hash }),
            None => Err(LedgerError::ApiError),
        }
    } else {
        Err(LedgerError::ApiError)
    }
}

/// The bytes of an answer: the length of the payload, then the payload.
pub open spec fn response_bytes(payload: Seq<u8>) -> Seq<u8> {
    be32_bytes(payload.len() as u32) + payload
}

/// The value that the bytes of an answer carry, if any. Bytes after the
/// announced payload are never read.
pub open spec fn response_data(bytes: Seq<u8>) -> Option<DataView> {
    match announced_bytes(bytes) {
        Some(payload) => decoded::<DataView>(payload),
        None => None,
    }
}

/// A client reads from the answer that carries a value exactly that value.
pub proof fn lemma_response_roundtrip(data: DataView)
    requires
        data.encodable(),
        data.form().len() <= u32::MAX,
    ensures
        response_data(response_bytes(data.form())) == Some(data),
{
    let payload = data.form();
    let bytes = response_bytes(payload);
    let announced = payload.len() as u32;
    lemma_be32_roundtrip(announced);
    assert(bytes.subrange(0, 4) =~= be32_bytes(announced));
    assert(bytes.subrange(4, 4 + announced) =~= payload);
    crate::codec::lemma_decode_encode(data);
}

/// Frames the payload of an answer. A payload whose length does not fit the
/// length field cannot be framed.
pub fn encode_response(payload: &[u8]) -> (result: Result<Vec<u8>, LedgerError>)
    ensures
        match result {
            Ok(bytes) => payload@.len() <= u32::MAX && bytes@ == response_bytes(payload@),
            Err(error) => payload@.len() > u32::MAX && error == LedgerError::SerializeError,
        },
{
    let mut bytes: Vec<u8> = Vec::new();
    if write_announced(&mut bytes, payload) {
        assert(bytes@ =~= response_bytes(payload@));
        Ok(bytes)
    } else {
        Err(LedgerError::SerializeError)
    }
}

/// The value that a client reads from the bytes of an answer; bytes that
/// carry none are an API error.
pub fn parse_response(bytes: &[u8]) -> (result: Result<Data, LedgerError>)
    ensures
        match response_data(bytes@) {
            Some(data) => result matches Ok(read) && read@ == data,
            None => result matches Err(error) && error == LedgerError::ApiError,
        },
{
    assert(bytes@.skip(0) =~= bytes@);
    let payload = match read_announced(bytes, 0) {
        Some(payload) => payload,
        None => return Err(LedgerError::ApiError),
    };
    match deserialize_data(payload.as_slice()) {
        Ok(data) => Ok(data),
        Err(_) => Err(LedgerError::ApiError),
    }
}

} // verus!
