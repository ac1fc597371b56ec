//! The wire protocol: line-delimited JSON requests and responses.
//!
//! A request is one of
//!
//! ```text
//! {"Set":{"key":"k","value":"v"}}
//! {"Get":{"key":"k"}}
//! {"Rm":{"key":"k"}}
//! ```
//!
//! and a response is `{"Ok":"payload"}` or `{"Error":"message"}`, each on
//! one newline-terminated line.  A get of a missing key is not a protocol
//! error: it answers `Ok` with a "not found" payload.  A remove of a
//! missing key answers `Error`.

use vstd::prelude::*;
use vstd::string::StringExecFns;

use crate::KvError;
use crate::codec::{
    MAX_TEXT, NEWLINE_BYTE, QUOTE_BYTE, escaped, has_prefix_at, lemma_parse_escaped,
    lemma_parse_field_sound, line_close, parse_field, prefix_at, printable_char, push_escaped,
    push_line_close, push_val_open, take_field, val_open, valid_text,
};

verus! {

/// Payloads may be a little longer than keys and values: an error message
/// wraps a key in a short fixed text.
pub const MAX_PAYLOAD: usize = 1048640;

/// A response payload: printable, possibly empty, bounded.
pub open spec fn valid_payload(s: Seq<char>) -> bool {
    s.len() <= MAX_PAYLOAD && forall|i: int| 0 <= i < s.len() ==> printable_char(#[trigger] s[i])
}

/// One request from a client.  On the wire the insertion request is
/// tagged `Set`; here it is the `Put` variant.
#[derive(Debug, Clone, PartialEq)]
pub enum Instruction {
    /// Bind a value to a key (wire tag `Set`).
    Put {
        /// The key to insert.
        key: String,
        /// The value to insert.
        value: String,
    },
    /// Read a key.
    Get {
        /// The key to read.
        key: String,
    },
    /// Remove a key.
    Rm {
        /// The key to remove.
        key: String,
    },
}

/// Mathematical form of an [`Instruction`].
pub enum InstructionView {
    Put { key: Seq<char>, value: Seq<char> },
    Get { key: Seq<char> },
    Rm { key: Seq<char> },
}

impl View for Instruction {
    type V = InstructionView;

    open spec fn view(&self) -> InstructionView {
        match self {
            Instruction::Put { key, value } => InstructionView::Put { key: key@, value: value@ },
            Instruction::Get { key } => InstructionView::Get { key: key@ },
            Instruction::Rm { key } => InstructionView::Rm { key: key@ },
        }
    }
}

/// A request the server accepts: every key and value is a non-empty
/// printable string of bounded length.
pub open spec fn valid_instruction(i: InstructionView) -> bool {
    match i {
        InstructionView::Put { key, value } => valid_text(key) && valid_text(value),
        InstructionView::Get { key } => valid_text(key),
        InstructionView::Rm { key } => valid_text(key),
    }
}

/// One reply from the server.
#[derive(Debug, Clone, PartialEq)]
pub enum Response {
    /// The request succeeded; the payload is the value read, or empty.
    Done(String),
    /// The request failed; the payload is the error message.
    Failed(String),
}

/// Mathematical form of a [`Response`].
pub enum ResponseView {
    Done { payload: Seq<char> },
    Failed { message: Seq<char> },
}

impl View for Response {
    type V = ResponseView;

    open spec fn view(&self) -> ResponseView {
        match self {
            Response::Done(payload) => ResponseView::Done { payload: payload@ },
            Response::Failed(message) => ResponseView::Failed { message: message@ },
        }
    }
}

/// A response the server may send: printable bounded payload.
pub open spec fn valid_response(r: ResponseView) -> bool {
    match r {
        ResponseView::Done { payload } => valid_payload(payload),
        ResponseView::Failed { message } => valid_payload(message),
    }
}

/// Bytes of `{"Set":{"key":"`.
pub open spec fn set_open() -> Seq<u8> {
    seq![
        '{' as u8, '"' as u8, 'S' as u8, 'e' as u8, 't' as u8, '"' as u8, ':' as u8, '{' as u8,
        '"' as u8, 'k' as u8, 'e' as u8, 'y' as u8, '"' as u8, ':' as u8, '"' as u8,
    ]
}

/// Bytes of `{"Get":{"key":"`.
pub open spec fn get_open() -> Seq<u8> {
    seq![
        '{' as u8, '"' as u8, 'G' as u8, 'e' as u8, 't' as u8, '"' as u8, ':' as u8, '{' as u8,
        '"' as u8, 'k' as u8, 'e' as u8, 'y' as u8, '"' as u8, ':' as u8, '"' as u8,
    ]
}

/// Bytes of `{"Rm":{"key":"`.
pub open spec fn rm_open() -> Seq<u8> {
    seq![
        '{' as u8, '"' as u8, 'R' as u8, 'm' as u8, '"' as u8, ':' as u8, '{' as u8, '"' as u8,
        'k' as u8, 'e' as u8, 'y' as u8, '"' as u8, ':' as u8, '"' as u8,
    ]
}

/// Bytes of `{"Ok":"`.
pub open spec fn ok_open() -> Seq<u8> {
    seq!['{' as u8, '"' as u8, 'O' as u8, 'k' as u8, '"' as u8, ':' as u8, '"' as u8]
}

/// Bytes of `{"Error":"`.
pub open spec fn err_open() -> Seq<u8> {
    seq![
        '{' as u8, '"' as u8, 'E' as u8, 'r' as u8, 'r' as u8, 'o' as u8, 'r' as u8, '"' as u8,
        ':' as u8, '"' as u8,
    ]
}

/// Bytes of `}` plus the newline: what follows a response's payload quote.
pub open spec fn resp_close() -> Seq<u8> {
    seq!['}' as u8, NEWLINE_BYTE]
}

/// The canonical line for a request, newline included.
pub open spec fn encoded_instruction(i: InstructionView) -> Seq<u8> {
    match i {
        InstructionView::Put { key, value } => set_open() + escaped(key) + seq![QUOTE_BYTE]
            + val_open() + escaped(value) + seq![QUOTE_BYTE] + line_close(),
        InstructionView::Get { key } => get_open() + escaped(key) + seq![QUOTE_BYTE]
            + line_close(),
        InstructionView::Rm { key } => rm_open() + escaped(key) + seq![QUOTE_BYTE] + line_close(),
    }
}

/// The canonical line for a response, newline included.
pub open spec fn encoded_response(r: ResponseView) -> Seq<u8> {
    match r {
        ResponseView::Done { payload } => ok_open() + escaped(payload) + seq![QUOTE_BYTE]
            + resp_close(),
        ResponseView::Failed { message } => err_open() + escaped(message) + seq![QUOTE_BYTE]
            + resp_close(),
    }
}

/// Strict parse of one request line.
pub open spec fn parse_instruction(s: Seq<u8>) -> Option<InstructionView> {
    if has_prefix_at(s, 0, set_open()) {
        match parse_field(s, set_open().len() as int) {
            None => None,
            Some((key, j)) => if has_prefix_at(s, j, val_open()) {
                match parse_field(s, j + val_open().len()) {
                    None => None,
                    Some((value, j2)) => if j2 + line_close().len() == s.len() && s.subrange(
                        j2,
                        s.len() as int,
                    ) == line_close() && valid_text(key) && valid_text(value) {
                        Some(InstructionView::Put { key, value })
                    } else {
                        None
                    },
                }
            } else {
                None
            },
        }
    } else if has_prefix_at(s, 0, get_open()) {
        match parse_field(s, get_open().len() as int) {
            None => None,
            Some((key, j)) => if j + line_close().len() == s.len() && s.subrange(
                j,
                s.len() as int,
            ) == line_close() && valid_text(key) {
                Some(InstructionView::Get { key })
            } else {
                None
            },
        }
    } else if has_prefix_at(s, 0, rm_open()) {
        match parse_field(s, rm_open().len() as int) {
            None => None,
            Some((key, j)) => if j + line_close().len() == s.len() && s.subrange(
                j,
                s.len() as int,
            ) == line_close() && valid_text(key) {
                Some(InstructionView::Rm { key })
            } else {
                None
            },
        }
    } else {
        None
    }
}

/// Strict parse of one response line.
pub open spec fn parse_response(s: Seq<u8>) -> Option<ResponseView> {
    if has_prefix_at(s, 0, ok_open()) {
        match parse_field(s, ok_open().len() as int) {
            None => None,
            Some((payload, j)) => if j + resp_close().len() == s.len() && s.subrange(
                j,
                s.len() as int,
            ) == resp_close() && valid_payload(payload) {
                Some(ResponseView::Done { payload })
            } else {
                None
            },
        }
    } else if has_prefix_at(s, 0, err_open()) {
        match parse_field(s, err_open().len() as int) {
            None => None,
            Some((message, j)) => if j + resp_close().len() == s.len() && s.subrange(
                j,
                s.len() as int,
            ) == resp_close() && valid_payload(message) {
                Some(ResponseView::Failed { message })
            } else {
                None
            },
        }
    } else {
        None
    }
}

/// Decoding a canonical request line gives back the request it encodes.
pub proof fn lemma_parse_encoded_instruction(i: InstructionView)
    requires
        valid_instruction(i),
    ensures
        parse_instruction(encoded_instruction(i)) == Some(i),
{
    let s = encoded_instruction(i);
    match i {
        InstructionView::Put { key, value } => {
            let a = set_open().len() as int;
            let b = a + escaped(key).len() + 1;
            let d = b + val_open().len() as int;
            let e = d + escaped(value).len() + 1;
            assert(s.len() == e + 3);
            assert(s.subrange(0, a) =~= set_open());
            assert(s.subrange(a, b) =~= escaped(key) + seq![QUOTE_BYTE]);
            lemma_parse_escaped(s, a, key);
            assert(s.subrange(b, d) =~= val_open());
            assert(s.subrange(d, e) =~= escaped(value) + seq![QUOTE_BYTE]);
            lemma_parse_escaped(s, d, value);
            assert(s.subrange(e, s.len() as int) =~= line_close());
        },
        InstructionView::Get { key } => {
            let a = get_open().len() as int;
            let b = a + escaped(key).len() + 1;
            assert(s.len() == b + 3);
            assert(!has_prefix_at(s, 0, set_open())) by {
                if has_prefix_at(s, 0, set_open()) {
                    assert(s.subrange(0, set_open().len() as int)[2] == 'S' as u8);
                    assert(s[2] == 'G' as u8);
                }
            }
            assert(s.subrange(0, a) =~= get_open());
            assert(s.subrange(a, b) =~= escaped(key) + seq![QUOTE_BYTE]);
            lemma_parse_escaped(s, a, key);
            assert(s.subrange(b, s.len() as int) =~= line_close());
        },
        InstructionView::Rm { key } => {
            let a = rm_open().len() as int;
            let b = a + escaped(key).len() + 1;
            assert(s.len() == b + 3);
            assert(!has_prefix_at(s, 0, set_open())) by {
                if has_prefix_at(s, 0, set_open()) {
                    assert(s.subrange(0, set_open().len() as int)[2] == 'S' as u8);
                    assert(s[2] == 'R' as u8);
                }
            }
            assert(!has_prefix_at(s, 0, get_open())) by {
                if has_prefix_at(s, 0, get_open()) {
                    assert(s.subrange(0, get_open().len() as int)[2] == 'G' as u8);
                    assert(s[2] == 'R' as u8);
                }
            }
            assert(s.subrange(0, a) =~= rm_open());
            assert(s.subrange(a, b) =~= escaped(key) + seq![QUOTE_BYTE]);
            lemma_parse_escaped(s, a, key);
            assert(s.subrange(b, s.len() as int) =~= line_close());
        },
    }
}

/// Decoding a canonical response line gives back the response it encodes.
pub proof fn lemma_parse_encoded_response(r: ResponseView)
    requires
        valid_response(r),
    ensures
        parse_response(encoded_response(r)) == Some(r),
{
    let s = encoded_response(r);
    match r {
        ResponseView::Done { payload } => {
            let a = ok_open().len() as int;
            let b = a + escaped(payload).len() + 1;
            assert(s.len() == b + 2);
            assert(s.subrange(0, a) =~= ok_open());
            assert(s.subrange(a, b) =~= escaped(payload) + seq![QUOTE_BYTE]);
            lemma_parse_escaped(s, a, payload);
            assert(s.subrange(b, s.len() as int) =~= resp_close());
        },
        ResponseView::Failed { message } => {
            let a = err_open().len() as int;
            let b = a + escaped(message).len() + 1;
            assert(s.len() == b + 2);
            assert(!has_prefix_at(s, 0, ok_open())) by {
                if has_prefix_at(s, 0, ok_open()) {
                    assert(s.subrange(0, ok_open().len() as int)[2] == 'O' as u8);
                    assert(s[2] == 'E' as u8);
                }
            }
            assert(s.subrange(0, a) =~= err_open());
            assert(s.subrange(a, b) =~= escaped(message) + seq![QUOTE_BYTE]);
            lemma_parse_escaped(s, a, message);
            assert(s.subrange(b, s.len() as int) =~= resp_close());
        },
    }
}


/// Appends the opening bytes of a `Set` request.
fn push_set_open(out: &mut Vec<u8>)
    ensures
        final(out)@ == old(out)@ + set_open(),
{
    out.push('{' as u8);
    out.push('"' as u8);
    out.push('S' as u8);
    out.push('e' as u8);
    out.push('t' as u8);
    out.push('"' as u8);
    out.push(':' as u8);
    out.push('{' as u8);
    out.push('"' as u8);
    out.push('k' as u8);
    out.push('e' as u8);
    out.push('y' as u8);
    out.push('"' as u8);
    out.push(':' as u8);
    out.push('"' as u8);
    assert(out@ =~= old(out)@ + set_open());
}

/// Appends the opening bytes of a `Get` request.
fn push_get_open(out: &mut Vec<u8>)
    ensures
        final(out)@ == old(out)@ + get_open(),
{
    out.push('{' as u8);
    out.push('"' as u8);
    out.push('G' as u8);
    out.push('e' as u8);
    out.push('t' as u8);
    out.push('"' as u8);
    out.push(':' as u8);
    out.push('{' as u8);
    out.push('"' as u8);
    out.push('k' as u8);
    out.push('e' as u8);
    out.push('y' as u8);
    out.push('"' as u8);
    out.push(':' as u8);
    out.push('"' as u8);
    assert(out@ =~= old(out)@ + get_open());
}

/// Appends the opening bytes of an `Rm` request.
fn push_rm_open(out: &mut Vec<u8>)
    ensures
        final(out)@ == old(out)@ + rm_open(),
{
    out.push('{' as u8);
    out.push('"' as u8);
    out.push('R' as u8);
    out.push('m' as u8);
    out.push('"' as u8);
    out.push(':' as u8);
    out.push('{' as u8);
    out.push('"' as u8);
    out.push('k' as u8);
    out.push('e' as u8);
    out.push('y' as u8);
    out.push('"' as u8);
    out.push(':' as u8);
    out.push('"' as u8);
    assert(out@ =~= old(out)@ + rm_open());
}

/// Appends the opening bytes of an `Ok` response.
fn push_ok_open(out: &mut Vec<u8>)
    ensures
        final(out)@ == old(out)@ + ok_open(),
{
    out.push('{' as u8);
    out.push('"' as u8);
    out.push('O' as u8);
    out.push('k' as u8);
    out.push('"' as u8);
    out.push(':' as u8);
    out.push('"' as u8);
    assert(out@ =~= old(out)@ + ok_open());
}

/// Appends the opening bytes of an `Error` response.
fn push_err_open(out: &mut Vec<u8>)
    ensures
        final(out)@ == old(out)@ + err_open(),
{
    out.push('{' as u8);
    out.push('"' as u8);
    out.push('E' as u8);
    out.push('r' as u8);
    out.push('r' as u8);
    out.push('o' as u8);
    out.push('r' as u8);
    out.push('"' as u8);
    out.push(':' as u8);
    out.push('"' as u8);
    assert(out@ =~= old(out)@ + err_open());
}

/// Appends the closing brace and newline of a response.
fn push_resp_close(out: &mut Vec<u8>)
    ensures
        final(out)@ == old(out)@ + resp_close(),
{
    out.push('}' as u8);
    out.push(NEWLINE_BYTE);
    assert(out@ =~= old(out)@ + resp_close());
}

/// Serializes one request as its canonical line, newline included.
pub fn encode_instruction(inst: &Instruction) -> (out: Vec<u8>)
    requires
        valid_instruction(inst@),
    ensures
        out@ == encoded_instruction(inst@),
{
    let mut out: Vec<u8> = Vec::new();
    match inst {
        Instruction::Put { key, value } => {
            push_set_open(&mut out);
            push_escaped(&mut out, key.as_str());
            out.push(QUOTE_BYTE);
            push_val_open(&mut out);
            push_escaped(&mut out, value.as_str());
            out.push(QUOTE_BYTE);
            push_line_close(&mut out);
            assert(out@ =~= encoded_instruction(inst@));
        },
        Instruction::Get { key } => {
            push_get_open(&mut out);
            push_escaped(&mut out, key.as_str());
            out.push(QUOTE_BYTE);
            push_line_close(&mut out);
            assert(out@ =~= encoded_instruction(inst@));
        },
        Instruction::Rm { key } => {
            push_rm_open(&mut out);
            push_escaped(&mut out, key.as_str());
            out.push(QUOTE_BYTE);
            push_line_close(&mut out);
            assert(out@ =~= encoded_instruction(inst@));
        },
    }
    out
}

/// Serializes one response as its canonical line, newline included.
pub fn encode_response(resp: &Response) -> (out: Vec<u8>)
    requires
        valid_response(resp@),
    ensures
        out@ == encoded_response(resp@),
{
    let mut out: Vec<u8> = Vec::new();
    match resp {
        Response::Done(payload) => {
            push_ok_open(&mut out);
            push_escaped(&mut out, payload.as_str());
            out.push(QUOTE_BYTE);
            push_resp_close(&mut out);
            assert(out@ =~= encoded_response(resp@));
        },
        Response::Failed(message) => {
            push_err_open(&mut out);
            push_escaped(&mut out, message.as_str());
            out.push(QUOTE_BYTE);
            push_resp_close(&mut out);
            assert(out@ =~= encoded_response(resp@));
        },
    }
    out
}

/// Checks that `line` ends, from `j` on, with exactly `}}` and a newline.
fn ends_line_close(line: &Vec<u8>, j: usize) -> (r: bool)
    requires
        j <= line@.len(),
    ensures
        r == (j + line_close().len() == line@.len() && line@.subrange(j as int, line@.len() as int)
            =~= line_close()),
{
    if line.len() < 3 || j != line.len() - 3 {
        return false;
    }
    if line[j] != '}' as u8 || line[j + 1] != '}' as u8 || line[j + 2] != NEWLINE_BYTE {
        assert(line@.subrange(j as int, line@.len() as int) != line_close()) by {
            let tail = line@.subrange(j as int, line@.len() as int);
            if tail == line_close() {
                assert(tail[0] == '}' as u8 && tail[1] == '}' as u8 && tail[2] == NEWLINE_BYTE);
            }
        }
        return false;
    }
    assert(line@.subrange(j as int, line@.len() as int) =~= line_close());
    true
}

/// Checks that `line` ends, from `j` on, with exactly `}` and a newline.
fn ends_resp_close(line: &Vec<u8>, j: usize) -> (r: bool)
    requires
        j <= line@.len(),
    ensures
        r == (j + resp_close().len() == line@.len() && line@.subrange(j as int, line@.len() as int)
            =~= resp_close()),
{
    if line.len() < 2 || j != line.len() - 2 {
        return false;
    }
    if line[j] != '}' as u8 || line[j + 1] != NEWLINE_BYTE {
        assert(line@.subrange(j as int, line@.len() as int) != resp_close()) by {
            let tail = line@.subrange(j as int, line@.len() as int);
            if tail == resp_close() {
                assert(tail[0] == '}' as u8 && tail[1] == NEWLINE_BYTE);
            }
        }
        return false;
    }
    assert(line@.subrange(j as int, line@.len() as int) =~= resp_close());
    true
}

/// Checks a parsed field for key/value validity: non-empty and bounded.
fn field_in_bounds(s: &String, lo: usize, hi: usize) -> (r: bool)
    requires
        vstd::utf8::is_ascii_chars(s@),
        s@.len() <= usize::MAX,
    ensures
        r == (lo <= s@.len() <= hi),
{
    let st = s.as_str();
    let n = st.len();
    proof {
        crate::codec::ascii_len_is_char_len(st);
    }
    lo <= n && n <= hi
}

/// Parses one request line; anything but a canonical line of a valid
/// request is rejected.
pub fn decode_instruction(line: &Vec<u8>) -> (r: Option<Instruction>)
    ensures
        match r {
            Some(i) => parse_instruction(line@) == Some(i@),
            None => parse_instruction(line@) is None,
        },
{
    let mut set_lit: Vec<u8> = Vec::new();
    push_set_open(&mut set_lit);
    let mut get_lit: Vec<u8> = Vec::new();
    push_get_open(&mut get_lit);
    let mut rm_lit: Vec<u8> = Vec::new();
    push_rm_open(&mut rm_lit);
    if prefix_at(line, 0, &set_lit) {
        let kf = match take_field(line, set_lit.len()) {
            None => {
                return None;
            },
            Some(kf) => kf,
        };
        let (key, j) = kf;
        let mut val_lit: Vec<u8> = Vec::new();
        push_val_open(&mut val_lit);
        if !prefix_at(line, j, &val_lit) {
            return None;
        }
        let total = line.len();
        assert(j + val_lit@.len() <= total);
        let vf = match take_field(line, j + val_lit.len()) {
            None => {
                return None;
            },
            Some(vf) => vf,
        };
        let (value, j2) = vf;
        proof {
            lemma_parse_field_sound(line@, set_lit@.len() as int);
            lemma_parse_field_sound(line@, j + val_lit@.len());
        }
        if !ends_line_close(line, j2) {
            return None;
        }
        proof {
            assert(key@.len() <= total && value@.len() <= total);
        }
        if !field_in_bounds(&key, 1, MAX_TEXT) || !field_in_bounds(&value, 1, MAX_TEXT) {
            return None;
        }
        Some(Instruction::Put { key, value })
    } else if prefix_at(line, 0, &get_lit) {
        let kf = match take_field(line, get_lit.len()) {
            None => {
                return None;
            },
            Some(kf) => kf,
        };
        let (key, j) = kf;
        proof {
            lemma_parse_field_sound(line@, get_lit@.len() as int);
        }
        if !ends_line_close(line, j) {
            return None;
        }
        let total = line.len();
        proof {
            assert(key@.len() <= total);
        }
        if !field_in_bounds(&key, 1, MAX_TEXT) {
            return None;
        }
        Some(Instruction::Get { key })
    } else if prefix_at(line, 0, &rm_lit) {
        let kf = match take_field(line, rm_lit.len()) {
            None => {
                return None;
            },
            Some(kf) => kf,
        };
        let (key, j) = kf;
        proof {
            lemma_parse_field_sound(line@, rm_lit@.len() as int);
        }
        if !ends_line_close(line, j) {
            return None;
        }
        let total = line.len();
        proof {
            assert(key@.len() <= total);
        }
        if !field_in_bounds(&key, 1, MAX_TEXT) {
            return None;
        }
        Some(Instruction::Rm { key })
    } else {
        None
    }
}

/// Parses one response line; anything but a canonical line of a valid
/// response is rejected.
pub fn decode_response(line: &Vec<u8>) -> (r: Option<Response>)
    ensures
        match r {
            Some(resp) => parse_response(line@) == Some(resp@),
            None => parse_response(line@) is None,
        },
{
    let mut ok_lit: Vec<u8> = Vec::new();
    push_ok_open(&mut ok_lit);
    let mut err_lit: Vec<u8> = Vec::new();
    push_err_open(&mut err_lit);
    if prefix_at(line, 0, &ok_lit) {
        let pf = match take_field(line, ok_lit.len()) {
            None => {
                return None;
            },
            Some(pf) => pf,
        };
        let (payload, j) = pf;
        proof {
            lemma_parse_field_sound(line@, ok_lit@.len() as int);
        }
        if !ends_resp_close(line, j) {
            return None;
        }
        let total = line.len();
        proof {
            assert(payload@.len() <= total);
        }
        if !field_in_bounds(&payload, 0, MAX_PAYLOAD) {
            return None;
        }
        Some(Response::Done(payload))
    } else if prefix_at(line, 0, &err_lit) {
        let pf = match take_field(line, err_lit.len()) {
            None => {
                return None;
            },
            Some(pf) => pf,
        };
        let (message, j) = pf;
        proof {
            lemma_parse_field_sound(line@, err_lit@.len() as int);
        }
        if !ends_resp_close(line, j) {
            return None;
        }
        let total = line.len();
        proof {
            assert(message@.len() <= total);
        }
        if !field_in_bounds(&message, 0, MAX_PAYLOAD) {
            return None;
        }
        Some(Response::Failed(message))
    } else {
        None
    }
}


/// Every error message is a well-formed response payload, as long as an
/// embedded key is itself well-formed.
pub proof fn lemma_message_valid(e: KvError)
    requires
        e matches KvError::KeyNotFound { key } ==> valid_text(key@),
    ensures
        valid_payload(crate::message_view(e)),
{
    reveal_strlit("Key: ");
    reveal_strlit(" not found.");
    reveal_strlit("Corrupted record on disk.");
    reveal_strlit("Malformed request.");
    reveal_strlit("I/O failure.");
    reveal_strlit("Malformed recovery metadata.");
    reveal_strlit("Malformed data directory.");
    reveal_strlit("Malformed record line.");
    broadcast use vstd::string::group_string_axioms;

    let m = crate::message_view(e);
    match e {
        KvError::KeyNotFound { key } => {
            assert(valid_payload(m)) by {
                assert forall|i: int| 0 <= i < m.len() implies printable_char(
                    #[trigger] m[i],
                ) by {
                    if i < 5 {
                        assert(m[i] == "Key: "@[i]);
                    } else if i < 5 + key@.len() {
                        assert(m[i] == key@[i - 5]);
                    } else {
                        assert(m[i] == " not found."@[i - 5 - key@.len()]);
                    }
                }
            }
        },
        _ => {},
    }
}

/// The `Ok` payload for a get of a missing key.
pub open spec fn not_found_payload(key: Seq<char>) -> Seq<char> {
    "Key: "@ + key + " not found"@
}

/// Builds the missing-key payload, which is printable whenever the key
/// is.
fn not_found_text(key: &str) -> (s: String)
    requires
        valid_text(key@),
    ensures
        s@ == not_found_payload(key@),
        valid_payload(s@),
{
    let mut s = String::from_str("Key: ");
    s.append(key);
    s.append(" not found");
    proof {
        reveal_strlit("Key: ");
        reveal_strlit(" not found");
        broadcast use vstd::string::group_string_axioms;

        assert(s@ =~= not_found_payload(key@));
        assert forall|i: int| 0 <= i < s@.len() implies printable_char(#[trigger] s@[i]) by {
            if i < 5 {
                assert(s@[i] == "Key: "@[i]);
            } else if i < 5 + key@.len() {
                assert(s@[i] == key@[i - 5]);
            } else {
                assert(s@[i] == " not found"@[i - 5 - key@.len()]);
            }
        }
    }
    s
}

/// The response for a `Get`: a found value or the missing-key payload are
/// both `Ok`; only a real failure is `Error`.
pub fn response_for_get(key: &str, r: Result<Option<String>, KvError>) -> (resp: Response)
    requires
        valid_text(key@),
        r matches Ok(Some(v)) ==> valid_text(v@),
        r matches Err(KvError::KeyNotFound { key: k }) ==> valid_text(k@),
    ensures
        valid_response(resp@),
        match r {
            Ok(Some(v)) => resp@ == (ResponseView::Done { payload: v@ }),
            Ok(None) => resp@ == (ResponseView::Done { payload: not_found_payload(key@) }),
            Err(e) => resp@ == (ResponseView::Failed { message: crate::message_view(e) }),
        },
{
    match r {
        Ok(Some(v)) => Response::Done(v),
        Ok(None) => Response::Done(not_found_text(key)),
        Err(e) => {
            proof {
                lemma_message_valid(e);
            }
            let m = e.message();
            Response::Failed(m)
        },
    }
}

/// The response for a `Set` or `Rm`: success carries an empty payload;
/// a failure carries the error's message.
pub fn response_for_mutation(r: Result<(), KvError>) -> (resp: Response)
    requires
        r matches Err(KvError::KeyNotFound { key: k }) ==> valid_text(k@),
    ensures
        valid_response(resp@),
        match r {
            Ok(()) => resp@ == (ResponseView::Done { payload: Seq::<char>::empty() }),
            Err(e) => resp@ == (ResponseView::Failed { message: crate::message_view(e) }),
        },
{
    match r {
        Ok(()) => {
            let s = String::new();
            Response::Done(s)
        },
        Err(e) => {
            proof {
                lemma_message_valid(e);
            }
            let m = e.message();
            Response::Failed(m)
        },
    }
}

/// Dispatches one request to an engine and shapes the reply.  What the
/// engine answers depends on its own state; the shaping of each answer is
/// fixed by [`response_for_get`] and [`response_for_mutation`].
pub fn process_instruction<T: crate::engine::KvsEngine>(engine: &T, inst: &Instruction) -> (resp:
    Response)
    requires
        valid_instruction(inst@),
    ensures
        valid_response(resp@),
{
    match inst {
        Instruction::Get { key } => {
            let r = engine.get(key.as_str());
            let resp = match r {
                Ok(Some(v)) => {
                    let keep = crate::kvstore::check_valid_text(v.as_str());
                    if keep {
                        response_for_get(key.as_str(), Ok(Some(v)))
                    } else {
                        response_for_get(key.as_str(), Err(KvError::Corruption))
                    }
                },
                Ok(None) => response_for_get(key.as_str(), Ok(None)),
                Err(e) => match e {
                    KvError::KeyNotFound { key: _ } => response_for_get(
                        key.as_str(),
                        Err(KvError::Corruption),
                    ),
                    other => response_for_get(key.as_str(), Err(other)),
                },
            };
            resp
        },
        Instruction::Put { key, value } => {
            let r = engine.set(key.as_str(), value.as_str());
            let _ = engine.flush();
            match r {
                Ok(()) => response_for_mutation(Ok(())),
                Err(e) => match e {
                    KvError::KeyNotFound { key: _ } => response_for_mutation(
                        Err(KvError::Corruption),
                    ),
                    other => response_for_mutation(Err(other)),
                },
            }
        },
        Instruction::Rm { key } => {
            let r = engine.remove(key.as_str());
            let _ = engine.flush();
            match r {
                Err(KvError::KeyNotFound { key: k }) => {
                    let keep = crate::kvstore::check_valid_text(k.as_str());
                    if keep {
                        response_for_mutation(Err(KvError::KeyNotFound { key: k }))
                    } else {
                        response_for_mutation(Err(KvError::Corruption))
                    }
                },
                Err(other) => response_for_mutation(Err(other)),
                Ok(()) => response_for_mutation(Ok(())),
            }
        },
    }
}

/// Handles one raw request line: decode, dispatch, encode.  A line that
/// is not a well-formed request yields `None`, and the connection it came
/// from is to be closed.
pub fn handle_request_line<T: crate::engine::KvsEngine>(engine: &T, line: &Vec<u8>) -> (r: Option<
    Vec<u8>,
>)
    ensures
        parse_instruction(line@) is None <==> r is None,
        r matches Some(reply) ==> parse_response(reply@) is Some,
{
    let inst = match decode_instruction(line) {
        None => {
            return None;
        },
        Some(i) => i,
    };
    proof {
        assert(valid_instruction(inst@));
    }
    let resp = process_instruction(engine, &inst);
    let reply = encode_response(&resp);
    proof {
        lemma_parse_encoded_response(resp@);
    }
    Some(reply)
}


/// Whatever the request parser accepts is the canonical encoding of the
/// request it returns, and that request is valid.
pub proof fn lemma_parse_instruction_sound(s: Seq<u8>)
    requires
        parse_instruction(s) is Some,
    ensures
        valid_instruction(parse_instruction(s)->Some_0),
        s == encoded_instruction(parse_instruction(s)->Some_0),
{
    let i = parse_instruction(s)->Some_0;
    if has_prefix_at(s, 0, set_open()) {
        let a = set_open().len() as int;
        let (key, j) = parse_field(s, a)->Some_0;
        lemma_parse_field_sound(s, a);
        let d = j + val_open().len() as int;
        let (value, j2) = parse_field(s, d)->Some_0;
        lemma_parse_field_sound(s, d);
        assert(s.len() == j2 + 3);
        let t = encoded_instruction(i);
        assert forall|m: int| 0 <= m < s.len() implies s[m] == t[m] by {
            if m < a {
                assert(s[m] == s.subrange(0, a)[m]);
            } else if m < j {
                assert(s[m] == s.subrange(a, j)[m - a]);
                assert(s[m] == (escaped(key) + seq![QUOTE_BYTE])[m - a]);
            } else if m < d {
                assert(s[m] == s.subrange(j, d)[m - j]);
            } else if m < j2 {
                assert(s[m] == s.subrange(d, j2)[m - d]);
                assert(s[m] == (escaped(value) + seq![QUOTE_BYTE])[m - d]);
            } else {
                assert(s[m] == s.subrange(j2, s.len() as int)[m - j2]);
            }
        }
        assert(s =~= t);
    } else if has_prefix_at(s, 0, get_open()) {
        let a = get_open().len() as int;
        let (key, j) = parse_field(s, a)->Some_0;
        lemma_parse_field_sound(s, a);
        assert(s.len() == j + 3);
        let t = encoded_instruction(i);
        assert forall|m: int| 0 <= m < s.len() implies s[m] == t[m] by {
            if m < a {
                assert(s[m] == s.subrange(0, a)[m]);
            } else if m < j {
                assert(s[m] == s.subrange(a, j)[m - a]);
                assert(s[m] == (escaped(key) + seq![QUOTE_BYTE])[m - a]);
            } else {
                assert(s[m] == s.subrange(j, s.len() as int)[m - j]);
            }
        }
        assert(s =~= t);
    } else {
        let a = rm_open().len() as int;
        let (key, j) = parse_field(s, a)->Some_0;
        lemma_parse_field_sound(s, a);
        assert(s.len() == j + 3);
        let t = encoded_instruction(i);
        assert forall|m: int| 0 <= m < s.len() implies s[m] == t[m] by {
            if m < a {
                assert(s[m] == s.subrange(0, a)[m]);
            } else if m < j {
                assert(s[m] == s.subrange(a, j)[m - a]);
                assert(s[m] == (escaped(key) + seq![QUOTE_BYTE])[m - a]);
            } else {
                assert(s[m] == s.subrange(j, s.len() as int)[m - j]);
            }
        }
        assert(s =~= t);
    }
}

/// Whatever the response parser accepts is the canonical encoding of the
/// response it returns, and that response is valid.
pub proof fn lemma_parse_response_sound(s: Seq<u8>)
    requires
        parse_response(s) is Some,
    ensures
        valid_response(parse_response(s)->Some_0),
        s == encoded_response(parse_response(s)->Some_0),
{
    let r = parse_response(s)->Some_0;
    if has_prefix_at(s, 0, ok_open()) {
        let a = ok_open().len() as int;
        let (payload, j) = parse_field(s, a)->Some_0;
        lemma_parse_field_sound(s, a);
        assert(s.len() == j + 2);
        let t = encoded_response(r);
        assert forall|m: int| 0 <= m < s.len() implies s[m] == t[m] by {
            if m < a {
                assert(s[m] == s.subrange(0, a)[m]);
            } else if m < j {
                assert(s[m] == s.subrange(a, j)[m - a]);
                assert(s[m] == (escaped(payload) + seq![QUOTE_BYTE])[m - a]);
            } else {
                assert(s[m] == s.subrange(j, s.len() as int)[m - j]);
            }
        }
        assert(s =~= t);
    } else {
        let a = err_open().len() as int;
        let (message, j) = parse_field(s, a)->Some_0;
        lemma_parse_field_sound(s, a);
        assert(s.len() == j + 2);
        let t = encoded_response(r);
        assert forall|m: int| 0 <= m < s.len() implies s[m] == t[m] by {
            if m < a {
                assert(s[m] == s.subrange(0, a)[m]);
            } else if m < j {
                assert(s[m] == s.subrange(a, j)[m - a]);
                assert(s[m] == (escaped(message) + seq![QUOTE_BYTE])[m - a]);
            } else {
                assert(s[m] == s.subrange(j, s.len() as int)[m - j]);
            }
        }
        assert(s =~= t);
    }
}

} // verus!
