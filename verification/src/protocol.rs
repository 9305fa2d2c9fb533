//! The request protocol between clients and the server.
//!
//! A request is a command byte (1 GET, 2 SET, 3 COMPACT), the key length as
//! a big-endian `u32`, the key, and for SET the value length and the value.
//! A response is a status byte (0 OK, 1 NOT FOUND, 0xFF ERROR), the length of
//! the value as a big-endian `u32`, and the value.
use vstd::prelude::*;
use vstd::string::*;

use crate::index::{Index, Location, compaction_writes};
use crate::writer::{LogWriter, WriterState, batch_full};
use crate::record::log_of;
use crate::record::{be_u32_at, u32_be, encode_u32, read_u32, read_bytes, extend_bytes};

verus! {

/// What a request asks for.
pub enum RequestSpec {
    Get(Seq<u8>),
    Put(Seq<u8>, Seq<u8>),
    Compact,
    /// The request is refused and answered with the error response: it is
    /// empty, a key or value is cut short, or the command is unknown.
    Invalid,
    /// A length field (the key length, or a SET's value length) is cut
    /// short: reading the request fails.
    LengthCut,
}

/// The command byte of GET.
pub const CMD_GET: u8 = 0x01;

/// The command byte of SET.
pub const CMD_SET: u8 = 0x02;

/// The command byte of COMPACT.
pub const CMD_COMPACT: u8 = 0x03;

/// The status byte of a successful response.
pub const STATUS_OK: u8 = 0x00;

/// The status byte of a response to a GET whose key is not in the index.
pub const STATUS_NOT_FOUND: u8 = 0x01;

/// The status byte of a response to a request that failed.
pub const STATUS_ERROR: u8 = 0xFF;

/// What the request bytes `b` ask for. An empty request, a key or value
/// cut short, or an unknown command byte is invalid; a length field cut
/// short is a failure of its own; bytes after the request are ignored.
pub open spec fn parse_request_spec(b: Seq<u8>) -> RequestSpec {
    if b.len() < 1 {
        RequestSpec::Invalid
    } else if b.len() < 5 {
        RequestSpec::LengthCut
    } else {
        let klen = be_u32_at(b, 1);
        if 5 + klen > b.len() {
            RequestSpec::Invalid
        } else {
            let key = b.subrange(5, 5 + klen);
            if b[0] == CMD_GET {
                RequestSpec::Get(key)
            } else if b[0] == CMD_SET {
                if 9 + klen > b.len() {
                    RequestSpec::LengthCut
                } else {
                    let vlen = be_u32_at(b, 5 + klen);
                    if 9 + klen + vlen > b.len() {
                        RequestSpec::Invalid
                    } else {
                        RequestSpec::Put(key, b.subrange(9 + klen, 9 + klen + vlen))
                    }
                }
            } else if b[0] == CMD_COMPACT {
                RequestSpec::Compact
            } else {
                RequestSpec::Invalid
            }
        }
    }
}

/// A parsed request.
pub enum Request {
    Get { key: Vec<u8> },
    Put { key: Vec<u8>, value: Vec<u8> },
    Compact,
    Invalid,
    LengthCut,
}

impl View for Request {
    type V = RequestSpec;

    open spec fn view(&self) -> RequestSpec {
        match self {
            Request::Get { key } => RequestSpec::Get(key@),
            Request::Put { key, value } => RequestSpec::Put(key@, value@),
            Request::Compact => RequestSpec::Compact,
            Request::Invalid => RequestSpec::Invalid,
            Request::LengthCut => RequestSpec::LengthCut,
        }
    }
}

/// Parses the bytes of a request.
pub fn parse_request(buf: &[u8]) -> (out: Request)
    ensures
        out@ == parse_request_spec(buf@),
{
    let command = match read_bytes(buf, 0, 1) {
        Some(c) => c,
        None => return Request::Invalid,
    };
    let key_len = match read_u32(buf, 1) {
        Some(n) => n as usize,
        None => return Request::LengthCut,
    };
    let key = match read_bytes(buf, 5, key_len) {
        Some(k) => k,
        None => return Request::Invalid,
    };
    assert(command@[0] == buf@[0]);
    assert(buf@.len() == buf.len());
    if command[0] == CMD_GET {
        Request::Get { key }
    } else if command[0] == CMD_SET {
        let value_pos = 5 + key_len;
        let value_len = match read_u32(buf, value_pos) {
            Some(n) => n as usize,
            None => return Request::LengthCut,
        };
        let value = match read_bytes(buf, value_pos + 4, value_len) {
            Some(v) => v,
            None => return Request::Invalid,
        };
        Request::Put { key, value }
    } else if command[0] == CMD_COMPACT {
        Request::Compact
    } else {
        Request::Invalid
    }
}

/// A response that carries only a status: the status byte and a zero length.
pub open spec fn status_response_spec(status: u8) -> Seq<u8> {
    seq![status, 0u8, 0u8, 0u8, 0u8]
}

/// A successful response that carries `value`.
pub open spec fn value_response_spec(value: Seq<u8>) -> Seq<u8> {
    seq![STATUS_OK] + u32_be(value.len() as u32) + value
}

/// A response that carries only `status`.
fn status_response(status: u8) -> (out: Vec<u8>)
    ensures
        out@ == status_response_spec(status),
{
    let out = vec![status, 0u8, 0u8, 0u8, 0u8];
    assert(out@ =~= status_response_spec(status));
    out
}

/// The response to a request that failed.
pub fn error_response() -> (out: Vec<u8>)
    ensures
        out@ == status_response_spec(STATUS_ERROR),
{
    status_response(STATUS_ERROR)
}

/// The response to a GET whose key is not in the index.
pub fn not_found_response() -> (out: Vec<u8>)
    ensures
        out@ == status_response_spec(STATUS_NOT_FOUND),
{
    status_response(STATUS_NOT_FOUND)
}

/// The response to a successful SET or COMPACT.
pub fn ok_response() -> (out: Vec<u8>)
    ensures
        out@ == status_response_spec(STATUS_OK),
{
    status_response(STATUS_OK)
}

/// The response to a GET whose value was read: the status, the value's
/// length (truncated to a `u32`) and the value.
pub fn value_response(value: &[u8]) -> (out: Vec<u8>)
    ensures
        out@ == value_response_spec(value@),
{
    let mut out: Vec<u8> = Vec::new();
    out.push(STATUS_OK);
    let len = encode_u32(value.len() as u32);
    extend_bytes(&mut out, &len);
    extend_bytes(&mut out, value);
    assert(out@ =~= value_response_spec(value@));
    out
}

/// What the server does next for a request.
pub enum Action {
    /// Send these bytes back.
    Respond(Vec<u8>),
    /// Read the value at this location and send it back with `value_response`.
    ReadValue(Location),
    /// Append a record for this key and value to the log, record the value's
    /// location in the index, and send back `ok_response`.
    Write(Vec<u8>, Vec<u8>),
    /// Compact the log, and send back `ok_response`.
    Compact,
    /// The request could not be read: handling it fails, and the failure is
    /// answered with `error_response`.
    Fail,
}

/// Decides what the server does for the request bytes `request`, given
/// the index.
pub fn handle_request(index: &Index, request: &[u8]) -> (out: Action)
    ensures
        match parse_request_spec(request@) {
            RequestSpec::Invalid => out matches Action::Respond(b) && b@ == status_response_spec(
                STATUS_ERROR,
            ),
            RequestSpec::Get(k) => if index@.contains_key(k) {
                out == Action::ReadValue(index@[k])
            } else {
                out matches Action::Respond(b) && b@ == status_response_spec(STATUS_NOT_FOUND)
            },
            RequestSpec::Put(k, v) => out matches Action::Write(key, value) && key@ == k && value@
                == v,
            RequestSpec::Compact => out is Compact,
            RequestSpec::LengthCut => out is Fail,
        },
{
    match parse_request(request) {
        Request::Get { key } => match index.get(key.as_slice()) {
            Some(loc) => Action::ReadValue(*loc),
            None => Action::Respond(not_found_response()),
        },
        Request::Put { key, value } => Action::Write(key, value),
        Request::Compact => Action::Compact,
        Request::Invalid => Action::Respond(error_response()),
        Request::LengthCut => Action::Fail,
    }
}

/// Finishes a SET whose record was written and committed: the index maps
/// the key to the value's offset and length in the writer's current segment,
/// the writer takes its sync decision once more (the batch was already
/// counted, so it asks for a sync only where the batch is full as it stands),
/// and the response is `ok_response`.
pub fn complete_set(
    index: &mut Index,
    writer: &mut LogWriter,
    key: Vec<u8>,
    value_offset: u64,
    value_len: usize,
) -> (out: (Vec<u8>, bool))
    ensures
        final(index)@ == old(index)@.insert(
            key@,
            (value_offset, value_len, old(writer)@.segment_number as u32),
        ),
        out.0@ == status_response_spec(STATUS_OK),
        out.1 == batch_full(old(writer)@.batch_count, old(writer)@.batch_size),
        final(writer)@ == (WriterState {
            batch_count: if out.1 {
                0
            } else {
                old(writer)@.batch_count
            },
            ..old(writer)@
        }),
{
    let segment_number = writer.get_segment_number();
    index.insert(key, value_offset, value_len, segment_number);
    let sync = writer.maybe_sync();
    (ok_response(), sync)
}

/// How handling a request ended.
pub enum Outcome {
    /// The request was answered with these bytes (`Action::Respond`).
    Respond(Vec<u8>),
    /// A GET read this value (`Action::ReadValue`).
    ValueRead(Vec<u8>),
    /// A SET or a COMPACT was carried out.
    Done,
    /// Handling failed: the request could not be read (`Action::Fail`), or
    /// file work failed.
    Failed,
}

/// The response that ends handling a request.
pub open spec fn response_spec(o: Outcome) -> Seq<u8> {
    match o {
        Outcome::Respond(b) => b@,
        Outcome::ValueRead(v) => value_response_spec(v@),
        Outcome::Done => status_response_spec(STATUS_OK),
        Outcome::Failed => status_response_spec(STATUS_ERROR),
    }
}

/// The response to send for how handling a request ended: the bytes
/// decided, the value read with its length, OK, or the error response.
pub fn response_for(outcome: Outcome) -> (out: Vec<u8>)
    ensures
        out@ == response_spec(outcome),
{
    match outcome {
        Outcome::Respond(b) => b,
        Outcome::ValueRead(v) => value_response(v.as_slice()),
        Outcome::Done => ok_response(),
        Outcome::Failed => error_response(),
    }
}

/// Every response has the format that clients read: a status byte (OK,
/// NOT FOUND or ERROR), the payload's length as a big-endian `u32`, and the
/// payload, which is empty unless the status is OK. This holds for every
/// outcome of `handle_request`'s answers and of the server's work, when a
/// value read has a length that fits in a `u32`.
pub proof fn lemma_response_format(o: Outcome)
    requires
        o matches Outcome::Respond(b) ==> (b@ == status_response_spec(STATUS_ERROR) || b@
            == status_response_spec(STATUS_NOT_FOUND)),
        o matches Outcome::ValueRead(v) ==> v@.len() <= u32::MAX,
    ensures
        ({
            let r = response_spec(o);
            &&& parse_response_spec(r) is Some
            &&& ({
                let (status, payload) = parse_response_spec(r)->0;
                &&& status == STATUS_OK || status == STATUS_NOT_FOUND || status == STATUS_ERROR
                &&& r.len() == 5 + payload.len()
                &&& status != STATUS_OK ==> payload.len() == 0
            })
        }),
{
    match o {
        Outcome::ValueRead(v) => {
            lemma_responses_understood(v@, STATUS_OK);
        },
        Outcome::Respond(b) => {
            lemma_responses_understood(Seq::<u8>::empty(), STATUS_ERROR);
            lemma_responses_understood(Seq::<u8>::empty(), STATUS_NOT_FOUND);
        },
        Outcome::Done => {
            lemma_responses_understood(Seq::<u8>::empty(), STATUS_OK);
        },
        Outcome::Failed => {
            lemma_responses_understood(Seq::<u8>::empty(), STATUS_ERROR);
        },
    }
}

/// What compaction writes and removes: the compacted segment, holding one
/// record for each key of the index, in the index's order, with the value
/// read for it; and the numbers of the segments after segment 0, up to the
/// current one, which are removed once the compacted segment has replaced
/// segment 0.
pub fn plan_compaction(index: &Index, values: &Vec<Vec<u8>>, segment_number: u32) -> (out: (
    Vec<u8>,
    Vec<u32>,
))
    requires
        values@.len() == index.key_order().len(),
    ensures
        out.0@ == log_of(compaction_writes(index.key_order(), values@)),
        out.1@.len() == segment_number,
        forall|i: int| 0 <= i < out.1@.len() ==> #[trigger] out.1@[i] == i + 1,
{
    let bytes = index.compact_log(values);
    let mut remove: Vec<u32> = Vec::new();
    let mut n: u32 = 0;
    while n < segment_number
        invariant
            n <= segment_number,
            remove@.len() == n,
            forall|i: int| 0 <= i < n ==> #[trigger] remove@[i] == i + 1,
        decreases segment_number - n,
    {
        n = n + 1;
        remove.push(n);
    }
    (bytes, remove)
}

/// The command word of a SET on the client's command line.
pub open spec fn set_word() -> Seq<char> {
    seq!['S', 'E', 'T']
}

/// The command word of a GET on the client's command line.
pub open spec fn get_word() -> Seq<char> {
    seq!['G', 'E', 'T']
}

/// The command word of a COMPACT on the client's command line.
pub open spec fn compact_word() -> Seq<char> {
    seq!['C', 'O', 'M', 'P', 'A', 'C', 'T']
}

/// The request that a client sends for the command word `cmd`: a GET also
/// sends a zero value length, a COMPACT sends zero key and value lengths,
/// and an unknown command gives no bytes.
pub open spec fn request_bytes_spec(cmd: Seq<char>, key: Seq<u8>, value: Option<Seq<u8>>) -> Seq<u8> {
    if cmd == set_word() {
        let v = value->0;
        seq![CMD_SET] + u32_be(key.len() as u32) + key + u32_be(v.len() as u32) + v
    } else if cmd == get_word() {
        seq![CMD_GET] + u32_be(key.len() as u32) + key + u32_be(0)
    } else if cmd == compact_word() {
        seq![CMD_COMPACT] + u32_be(0) + u32_be(0)
    } else {
        Seq::empty()
    }
}

/// Whether two strings are equal.
fn str_eq(a: &str, b: &str) -> (out: bool)
    ensures
        out == (a@ == b@),
{
    let n = a.unicode_len();
    if n != b.unicode_len() {
        return false;
    }
    let mut i: usize = 0;
    while i < n
        invariant
            n == a@.len(),
            n == b@.len(),
            i <= n,
            forall|j: int| 0 <= j < i ==> a@[j] == b@[j],
        decreases n - i,
    {
        if a.get_char(i) != b.get_char(i) {
            return false;
        }
        i += 1;
    }
    assert(a@ =~= b@);
    true
}

/// The bytes of the request for the command word `cmd` (`SET`, `GET` or
/// `COMPACT`), with key and value sent as their UTF-8 bytes; an unknown
/// command gives no bytes. A SET needs a value.
pub fn build_request(cmd: &str, key: &str, value: Option<&str>) -> (out: Vec<u8>)
    requires
        cmd@ == set_word() ==> value is Some,
    ensures
        out@ == request_bytes_spec(
            cmd@,
            key.spec_bytes(),
            match value {
                Some(v) => Some(v.spec_bytes()),
                None => None,
            },
        ),
{
    proof {
        reveal_strlit("SET");
        reveal_strlit("GET");
        reveal_strlit("COMPACT");
    }
    assert("SET"@ =~= set_word());
    assert("GET"@ =~= get_word());
    assert("COMPACT"@ =~= compact_word());
    let mut request: Vec<u8> = Vec::new();
    let key_bytes = key.as_bytes();
    let zero = encode_u32(0);
    if str_eq(cmd, "SET") {
        let v = match value {
            Some(v) => v,
            None => return request,
        };
        let value_bytes = v.as_bytes();
        request.push(CMD_SET);
        extend_bytes(&mut request, &encode_u32(key_bytes.len() as u32));
        extend_bytes(&mut request, key_bytes);
        extend_bytes(&mut request, &encode_u32(value_bytes.len() as u32));
        extend_bytes(&mut request, value_bytes);
    } else if str_eq(cmd, "GET") {
        request.push(CMD_GET);
        extend_bytes(&mut request, &encode_u32(key_bytes.len() as u32));
        extend_bytes(&mut request, key_bytes);
        extend_bytes(&mut request, &zero);
    } else if str_eq(cmd, "COMPACT") {
        request.push(CMD_COMPACT);
        extend_bytes(&mut request, &zero);
        extend_bytes(&mut request, &zero);
    }
    assert(request@ =~= request_bytes_spec(
        cmd@,
        key.spec_bytes(),
        match value {
            Some(v) => Some(v.spec_bytes()),
            None => None,
        },
    ));
    request
}

/// What a client reads from the response bytes `b`: the status and the
/// value, or nothing when the response is cut short.
pub open spec fn parse_response_spec(b: Seq<u8>) -> Option<(u8, Seq<u8>)> {
    if b.len() < 5 {
        None
    } else {
        let n = be_u32_at(b, 1);
        if 5 + n > b.len() {
            None
        } else {
            Some((b[0], b.subrange(5, 5 + n)))
        }
    }
}

/// Reads the status and the value of a response; `None` when it is cut
/// short.
pub fn parse_response(buf: &[u8]) -> (out: Option<(u8, Vec<u8>)>)
    ensures
        match (out, parse_response_spec(buf@)) {
            (Some((s, v)), Some((ss, vv))) => s == ss && v@ == vv,
            (None, None) => true,
            _ => false,
        },
{
    if buf.len() < 1 {
        return None;
    }
    let status = buf[0];
    let n = match read_u32(buf, 1) {
        Some(n) => n as usize,
        None => return None,
    };
    match read_bytes(buf, 5, n) {
        Some(v) => Some((status, v)),
        None => None,
    }
}

/// Every request that the client builds is understood by the server as
/// what the client asked for, when the key and value lengths fit in a `u32`.
pub proof fn lemma_client_requests_understood(key: Seq<u8>, value: Seq<u8>)
    requires
        key.len() <= u32::MAX,
        value.len() <= u32::MAX,
    ensures
        parse_request_spec(request_bytes_spec(set_word(), key, Some(value))) == RequestSpec::Put(
            key,
            value,
        ),
        parse_request_spec(request_bytes_spec(get_word(), key, None)) == RequestSpec::Get(key),
        parse_request_spec(request_bytes_spec(compact_word(), key, None)) == RequestSpec::Compact,
{
    crate::record::lemma_u32_be_roundtrip(key.len() as u32);
    crate::record::lemma_u32_be_roundtrip(value.len() as u32);
    crate::record::lemma_u32_be_roundtrip(0);
    let kl = key.len() as int;
    let s = request_bytes_spec(set_word(), key, Some(value));
    assert(set_word() != get_word());
    assert(set_word() != compact_word());
    assert(get_word() != compact_word());
    assert(s == seq![CMD_SET] + u32_be(key.len() as u32) + key + u32_be(value.len() as u32) + value);
    assert(be_u32_at(s, 1) == kl) by {
        assert(s == seq![CMD_SET] + u32_be(key.len() as u32) + (key + u32_be(value.len() as u32)
            + value));
    }
    assert(be_u32_at(s, 5 + kl) == value.len()) by {
        assert(s == (seq![CMD_SET] + u32_be(key.len() as u32) + key) + u32_be(value.len() as u32)
            + value);
    }
    assert(s.subrange(5, 5 + kl) =~= key);
    assert(s.subrange(9 + kl, 9 + kl + value.len()) =~= value);
    let g = request_bytes_spec(get_word(), key, None);
    assert(g == seq![CMD_GET] + u32_be(key.len() as u32) + key + u32_be(0));
    assert(be_u32_at(g, 1) == kl) by {
        assert(g == seq![CMD_GET] + u32_be(key.len() as u32) + (key + u32_be(0)));
    }
    assert(g.subrange(5, 5 + kl) =~= key);
    let c = request_bytes_spec(compact_word(), key, None);
    assert(c == seq![CMD_COMPACT] + u32_be(0) + u32_be(0));
    assert(be_u32_at(c, 1) == 0);
}

/// Every response that the server sends reads back, on the client, as the
/// status and value that the server meant, when the value's length fits in
/// a `u32`.
pub proof fn lemma_responses_understood(value: Seq<u8>, status: u8)
    requires
        value.len() <= u32::MAX,
    ensures
        parse_response_spec(value_response_spec(value)) == Some((STATUS_OK, value)),
        parse_response_spec(status_response_spec(status)) == Some((status, Seq::<u8>::empty())),
{
    crate::record::lemma_u32_be_roundtrip(value.len() as u32);
    let r = value_response_spec(value);
    assert(r == seq![STATUS_OK] + u32_be(value.len() as u32) + value);
    assert(r.subrange(5, 5 + value.len() as int) =~= value);
    let t = status_response_spec(status);
    assert(be_u32_at(t, 1) == 0);
    assert(t.subrange(5, 5) =~= Seq::<u8>::empty());
}

} // verus!
