//! Message framing: every message on the wire is a `Content-Length` header
//! with the byte count of the payload, a blank line, and the payload.

use vstd::prelude::*;
use vstd::slice::slice_subrange;
use vstd::string::*;
use vstd::utf8::*;
use crate::text::{
    ascii_chars, decimal, is_ascii_bytes, lemma_ascii_encode, lemma_decimal_digits,
    lemma_decode_concat, lemma_encode_concat, lemma_parse_decimal, lossy_string, lossy_text,
    parse_length, push_decimal, read_length,
};

verus! {

/// Why a buffered prefix can never become a message.
#[derive(Debug, Clone)]
pub struct MsgParseError(pub String);

impl MsgParseError {
    /// The reason, as text.
    pub fn to_string(&self) -> (res: String)
        ensures
            res@ == self.0@,
    {
        self.0.clone()
    }
}

/// The text that every header starts with.
pub open spec fn length_prefix() -> Seq<char> {
    "Content-Length: "@
}

/// The text that ends the header.
pub open spec fn separator() -> Seq<char> {
    "\r\n\r\n"@
}

/// True when the four bytes from `i` on are the blank line that ends a header.
pub open spec fn separator_at(b: Seq<u8>, i: int) -> bool {
    &&& 0 <= i
    &&& i + 4 <= b.len()
    &&& b[i] == 13
    &&& b[i + 1] == 10
    &&& b[i + 2] == 13
    &&& b[i + 3] == 10
}

/// True when some header end occurs in `b`.
pub open spec fn has_separator(b: Seq<u8>) -> bool {
    exists|i: int| separator_at(b, i)
}

/// True when `i` is where the first header end of `b` starts.
pub open spec fn is_header_end(b: Seq<u8>, i: int) -> bool {
    &&& separator_at(b, i)
    &&& forall|j: int| 0 <= j < i ==> !separator_at(b, j)
}

/// Where the first header end of `b` starts.
pub open spec fn header_end(b: Seq<u8>) -> int {
    choose|i: int| is_header_end(b, i)
}

/// True when `b` begins with `p`.
pub open spec fn starts_with(b: Seq<u8>, p: Seq<u8>) -> bool {
    p.len() <= b.len() && b.subrange(0, p.len() as int) == p
}

/// What the front of a byte stream holds.
pub enum Frame {
    /// More bytes are needed: the header or the payload has not ended yet.
    Incomplete,
    /// The header does not start with the length prefix.
    MissingLength,
    /// What follows the prefix is no length.
    InvalidLength,
    /// A whole message: its payload, and the bytes that it takes up in all.
    Complete { payload: Seq<u8>, consumed: nat },
}

/// Reads the front of `b` as one message.
pub open spec fn frame(b: Seq<u8>) -> Frame {
    if !has_separator(b) {
        Frame::Incomplete
    } else {
        let end = header_end(b);
        let header = b.subrange(0, end);
        let rest = b.subrange(end + 4, b.len() as int);
        let prefix = encode_utf8(length_prefix());
        if !starts_with(header, prefix) {
            Frame::MissingLength
        } else {
            match parse_length(header.subrange(prefix.len() as int, header.len() as int)) {
                None => Frame::InvalidLength,
                Some(n) => if rest.len() < n {
                    Frame::Incomplete
                } else {
                    Frame::Complete {
                        payload: rest.subrange(0, n as int),
                        consumed: (end + 4 + n) as nat,
                    }
                },
            }
        }
    }
}

/// A payload with its header in front.
pub open spec fn encoded_message(payload: Seq<char>) -> Seq<char> {
    length_prefix() + ascii_chars(decimal(encode_utf8(payload).len())) + separator() + payload
}

/// The payload that leaves a buffer holding `buffer`, if a whole message is
/// at its front.
pub open spec fn pop_payload(buffer: Seq<char>) -> Option<Seq<char>> {
    match frame(encode_utf8(buffer)) {
        Frame::Complete { payload, consumed } => Some(lossy_text(payload)),
        _ => None,
    }
}

/// What a buffer holding `buffer` holds after one attempt to take a message.
pub open spec fn pop_rest(buffer: Seq<char>) -> Seq<char> {
    match frame(encode_utf8(buffer)) {
        Frame::Complete { payload, consumed } => lossy_text(
            encode_utf8(buffer).subrange(consumed as int, encode_utf8(buffer).len() as int),
        ),
        _ => buffer,
    }
}

/// The first header end is unique.
pub proof fn lemma_header_end(b: Seq<u8>, i: int)
    requires
        is_header_end(b, i),
    ensures
        has_separator(b),
        header_end(b) == i,
{
    let e = header_end(b);
    assert(is_header_end(b, e));
    if e < i {
        assert(!separator_at(b, e));
    }
    if i < e {
        assert(!separator_at(b, i));
    }
}

fn find_separator(b: &[u8]) -> (res: Option<usize>)
    ensures
        match res {
            Some(i) => is_header_end(b@, i as int),
            None => !has_separator(b@),
        },
{
    let mut i: usize = 0;
    while i < b.len() && b.len() - i >= 4
        invariant
            i <= b.len(),
            forall|j: int| 0 <= j < i ==> !separator_at(b@, j),
        decreases b.len() - i,
    {
        if b[i] == 13 && b[i + 1] == 10 && b[i + 2] == 13 && b[i + 3] == 10 {
            return Some(i);
        }
        i = i + 1;
    }
    proof {
        assert forall|j: int| !separator_at(b@, j) by {
            if separator_at(b@, j) {
                assert(j >= i);
            }
        }
    }
    None
}

fn has_prefix(b: &[u8], p: &[u8]) -> (res: bool)
    ensures
        res == starts_with(b@, p@),
{
    if p.len() > b.len() {
        return false;
    }
    let mut i: usize = 0;
    while i < p.len()
        invariant
            i <= p.len() <= b.len(),
            b@.subrange(0, i as int) == p@.subrange(0, i as int),
        decreases p.len() - i,
    {
        if b[i] != p[i] {
            proof {
                if starts_with(b@, p@) {
                    assert(b@.subrange(0, p@.len() as int)[i as int] == p@[i as int]);
                }
            }
            return false;
        }
        proof {
            assert(b@.subrange(0, i + 1) =~= b@.subrange(0, i as int).push(b@[i as int]));
            assert(p@.subrange(0, i + 1) =~= p@.subrange(0, i as int).push(p@[i as int]));
        }
        i = i + 1;
    }
    proof {
        assert(p@.subrange(0, i as int) =~= p@);
    }
    true
}

/// Given the content of a message, puts the header in front of it, so that it
/// is ready to send. The length is that of the payload in bytes.
pub fn encode_message(message: String) -> (res: String)
    ensures
        res@ == encoded_message(message@),
{
    let n: usize = message.as_str().as_bytes().len();
    let mut out = String::from_str("Content-Length: ");
    push_decimal(&mut out, n);
    out.append("\r\n\r\n");
    out.append(message.as_str());
    proof {
        assert(out@ =~= encoded_message(message@));
    }
    out
}

/// Reads the front of `message` as one framed message: the payload and the
/// number of bytes that the whole message takes up, `None` while more bytes
/// are needed, and an error where the header can never become a valid one.
pub fn decode_message(message: &String) -> (res: Result<Option<(String, usize)>, MsgParseError>)
    ensures
        match frame(encode_utf8(message@)) {
            Frame::Incomplete => res matches Ok(None),
            Frame::MissingLength => res matches Err(e) && e.0@ == "missing Content-Length"@,
            Frame::InvalidLength => res matches Err(e) && e.0@ == "invalid length"@,
            Frame::Complete { payload, consumed } => res matches Ok(Some(m)) && m.0@ == lossy_text(
                payload,
            ) && m.1 == consumed && consumed <= encode_utf8(message@).len(),
        },
{
    let bytes = message.as_str().as_bytes();
    let total: usize = bytes.len();
    let found = find_separator(bytes);
    let end: usize = match found {
        None => {
            return Ok(None);
        },
        Some(end) => end,
    };
    proof {
        lemma_header_end(bytes@, end as int);
    }
    let header = slice_subrange(bytes, 0, end);
    let prefix = "Content-Length: ".as_bytes();
    if !has_prefix(header, prefix) {
        return Err(MsgParseError(String::from_str("missing Content-Length")));
    }
    let digits = slice_subrange(header, prefix.len(), end);
    let n: usize = match read_length(digits) {
        None => {
            return Err(MsgParseError(String::from_str("invalid length")));
        },
        Some(n) => n,
    };
    let start: usize = end + 4;
    if total - start < n {
        return Ok(None);
    }
    let payload = slice_subrange(bytes, start, start + n);
    proof {
        let rest = bytes@.subrange(start as int, bytes@.len() as int);
        assert(payload@ =~= rest.subrange(0, n as int));
    }
    Ok(Some((lossy_string(payload), start + n)))
}

/// Buffers everything that was received until whole messages can be taken
/// from its front.
pub struct BufferedReader {
    data: String,
}

impl View for BufferedReader {
    type V = Seq<char>;

    closed spec fn view(&self) -> Seq<char> {
        self.data@
    }
}

impl BufferedReader {
    /// The buffered text in UTF-8.
    pub open spec fn bytes(&self) -> Seq<u8> {
        encode_utf8(self@)
    }

    /// An empty buffer.
    pub fn new() -> (res: BufferedReader)
        ensures
            res@ == Seq::<char>::empty(),
    {
        BufferedReader { data: String::new() }
    }

    /// Appends `buffer`, read as UTF-8 with a replacement character for each
    /// invalid sequence.
    pub fn write(&mut self, buffer: &[u8])
        ensures
            final(self)@ == old(self)@ + lossy_text(buffer@),
            valid_utf8(buffer@) ==> final(self).bytes() == old(self).bytes() + buffer@,
    {
        let text = lossy_string(buffer);
        self.data.append(text.as_str());
        proof {
            if valid_utf8(buffer@) {
                lemma_encode_concat(old(self)@, text@);
                decode_utf8_encode_utf8(buffer@);
            }
        }
    }

    /// The text that is buffered.
    pub fn get_data(&self) -> (res: &String)
        ensures
            res@ == self@,
    {
        &self.data
    }

    /// Takes the message at the front of the buffer, if a whole one is there.
    /// The bytes behind it stay; without a whole message the buffer is left
    /// as it was.
    pub fn pop_message(&mut self) -> (res: Result<Option<String>, MsgParseError>)
        ensures
            final(self)@ == pop_rest(old(self)@),
            match frame(old(self).bytes()) {
                Frame::Incomplete => res matches Ok(None),
                Frame::MissingLength => res matches Err(e) && e.0@ == "missing Content-Length"@,
                Frame::InvalidLength => res matches Err(e) && e.0@ == "invalid length"@,
                Frame::Complete { payload, consumed } => {
                    &&& res matches Ok(Some(m)) && Some(m@) == pop_payload(old(self)@)
                    &&& is_char_boundary(old(self).bytes(), consumed as int) ==> final(self).bytes()
                        == old(self).bytes().subrange(
                        consumed as int,
                        old(self).bytes().len() as int,
                    )
                },
            },
    {
        match decode_message(&self.data) {
            Ok(Some((content, total_len))) => {
                let bytes = self.data.as_str().as_bytes();
                let rest = lossy_string(slice_subrange(bytes, total_len, bytes.len()));
                proof {
                    let b = old(self).bytes();
                    encode_utf8_valid_utf8(old(self)@);
                    if is_char_boundary(b, total_len as int) {
                        valid_utf8_split(b, total_len as int);
                        decode_utf8_encode_utf8(b.subrange(total_len as int, b.len() as int));
                    }
                }
                self.data = rest;
                Ok(Some(content))
            },
            Ok(None) => Ok(None),
            Err(e) => Err(e),
        }
    }
}

/// The fixed parts of a header, byte by byte.
proof fn lemma_header_literals()
    ensures
        encode_utf8(length_prefix()).len() == 16,
        is_ascii_bytes(encode_utf8(length_prefix())),
        forall|i: int| 0 <= i < 16 ==> encode_utf8(length_prefix())[i] != 13,
        encode_utf8(separator()) == seq![13u8, 10u8, 13u8, 10u8],
{
    reveal_strlit("Content-Length: ");
    reveal_strlit("\r\n\r\n");
    let p = seq![
        67u8,
        111u8,
        110u8,
        116u8,
        101u8,
        110u8,
        116u8,
        45u8,
        76u8,
        101u8,
        110u8,
        103u8,
        116u8,
        104u8,
        58u8,
        32u8,
    ];
    assert(length_prefix() =~= ascii_chars(p));
    lemma_ascii_encode(p);
    let q = seq![13u8, 10u8, 13u8, 10u8];
    assert(separator() =~= ascii_chars(q));
    lemma_ascii_encode(q);
}

/// The bytes of an encoded message are the header's bytes, then the
/// payload's bytes.
proof fn lemma_encoded_bytes(payload: Seq<char>)
    ensures
        encode_utf8(encoded_message(payload)) == encode_utf8(length_prefix()) + decimal(
            encode_utf8(payload).len(),
        ) + seq![13u8, 10u8, 13u8, 10u8] + encode_utf8(payload),
{
    let digits = decimal(encode_utf8(payload).len());
    lemma_header_literals();
    lemma_decimal_digits(encode_utf8(payload).len());
    lemma_ascii_encode(digits);
    lemma_encode_concat(length_prefix(), ascii_chars(digits));
    lemma_encode_concat(length_prefix() + ascii_chars(digits), separator());
    lemma_encode_concat(length_prefix() + ascii_chars(digits) + separator(), payload);
}

/// Framing round trip: a buffer that holds one encoded message gives back
/// exactly the payload and is left empty. The first claim is that writing the
/// encoded bytes into an empty buffer makes it hold the encoded message.
pub proof fn lemma_framing_round_trip(payload: Seq<char>)
    requires
        encode_utf8(payload).len() <= usize::MAX,
    ensures
        lossy_text(encode_utf8(encoded_message(payload))) == encoded_message(payload),
        frame(encode_utf8(encoded_message(payload))) == (Frame::Complete {
            payload: encode_utf8(payload),
            consumed: encode_utf8(encoded_message(payload)).len(),
        }),
        pop_payload(encoded_message(payload)) == Some(payload),
        pop_rest(encoded_message(payload)) == Seq::<char>::empty(),
{
    let text = encoded_message(payload);
    let b = encode_utf8(text);
    let body = encode_utf8(payload);
    let n = body.len();
    let prefix = encode_utf8(length_prefix());
    let digits = decimal(n);
    let end: int = (prefix.len() + digits.len()) as int;
    encode_utf8_valid_utf8(text);
    encode_utf8_decode_utf8(text);
    encode_utf8_valid_utf8(payload);
    encode_utf8_decode_utf8(payload);
    lemma_header_literals();
    lemma_encoded_bytes(payload);
    lemma_decimal_digits(n);
    lemma_parse_decimal(n);
    assert(separator_at(b, end));
    assert forall|j: int| 0 <= j < end implies !separator_at(b, j) by {
        if j < 16 {
            assert(b[j] == prefix[j]);
        } else {
            assert(b[j] == digits[j - 16]);
        }
    }
    lemma_header_end(b, end);
    let header = b.subrange(0, end);
    assert(header =~= prefix + digits);
    assert(header.subrange(0, prefix.len() as int) =~= prefix);
    assert(header.subrange(prefix.len() as int, header.len() as int) =~= digits);
    let rest = b.subrange(end + 4, b.len() as int);
    assert(rest =~= body);
    assert(rest.subrange(0, n as int) =~= body);
    assert(b.subrange(b.len() as int, b.len() as int) =~= Seq::<u8>::empty());
    assert(decode_utf8(Seq::<u8>::empty()) =~= Seq::<char>::empty());
}

/// What a buffer holds after `chunks` were written to it in order.
pub open spec fn write_all(buffer: Seq<char>, chunks: Seq<Seq<u8>>) -> Seq<char>
    decreases chunks.len(),
{
    if chunks.len() == 0 {
        buffer
    } else {
        write_all(buffer, chunks.drop_last()) + lossy_text(chunks.last())
    }
}

/// The chunks joined in order.
pub open spec fn joined(chunks: Seq<Seq<u8>>) -> Seq<u8>
    decreases chunks.len(),
{
    if chunks.len() == 0 {
        Seq::empty()
    } else {
        joined(chunks.drop_last()) + chunks.last()
    }
}

/// Chunking invariance: where every chunk is valid UTF-8 by itself, writing
/// the chunks in order leaves the buffer as one write of the joined bytes
/// does, so the next message taken from it is the same.
pub proof fn lemma_chunking_invariance(buffer: Seq<char>, chunks: Seq<Seq<u8>>)
    requires
        forall|i: int| 0 <= i < chunks.len() ==> valid_utf8(#[trigger] chunks[i]),
    ensures
        valid_utf8(joined(chunks)),
        write_all(buffer, chunks) == buffer + lossy_text(joined(chunks)),
        pop_payload(write_all(buffer, chunks)) == pop_payload(buffer + lossy_text(joined(chunks))),
        pop_rest(write_all(buffer, chunks)) == pop_rest(buffer + lossy_text(joined(chunks))),
    decreases chunks.len(),
{
    if chunks.len() == 0 {
        assert(decode_utf8(Seq::<u8>::empty()) =~= Seq::<char>::empty());
        assert(buffer + Seq::<char>::empty() =~= buffer);
    } else {
        let front = chunks.drop_last();
        lemma_chunking_invariance(buffer, front);
        lemma_decode_concat(joined(front), chunks.last());
        assert(write_all(buffer, chunks) =~= buffer + lossy_text(joined(chunks)));
    }
}

/// Where a header end occurs, there is a first one.
pub proof fn lemma_first_separator(b: Seq<u8>, i: int)
    requires
        separator_at(b, i),
    ensures
        is_header_end(b, header_end(b)),
        header_end(b) <= i,
    decreases i,
{
    if forall|j: int| 0 <= j < i ==> !separator_at(b, j) {
        lemma_header_end(b, i);
    } else {
        let j = choose|j: int| 0 <= j < i && separator_at(b, j);
        lemma_first_separator(b, j);
    }
}

/// A verdict is final: once the front of a stream is a whole message, or a
/// header that can never become valid, no bytes that arrive later change what
/// it is read as.
pub proof fn lemma_frame_is_stable(b: Seq<u8>, more: Seq<u8>)
    requires
        !(frame(b) is Incomplete),
    ensures
        frame(b + more) == frame(b),
{
    let i = choose|i: int| separator_at(b, i);
    lemma_first_separator(b, i);
    let end = header_end(b);
    let all = b + more;
    assert(separator_at(all, end));
    assert forall|j: int| 0 <= j < end implies !separator_at(all, j) by {
        assert(!separator_at(b, j));
    }
    lemma_header_end(all, end);
    assert(all.subrange(0, end) =~= b.subrange(0, end));
    let rest = b.subrange(end + 4, b.len() as int);
    assert(all.subrange(end + 4, all.len() as int) =~= rest + more);
    if frame(b) is Complete {
        let n = frame(b)->consumed - end - 4;
        assert((rest + more).subrange(0, n) =~= rest.subrange(0, n));
    }
}

/// The message at the front of a buffer stays the same when more text is
/// buffered behind it.
pub proof fn lemma_pop_is_stable(buffer: Seq<char>, more: Seq<char>)
    requires
        !(frame(encode_utf8(buffer)) is Incomplete),
    ensures
        frame(encode_utf8(buffer + more)) == frame(encode_utf8(buffer)),
        pop_payload(buffer + more) == pop_payload(buffer),
{
    lemma_encode_concat(buffer, more);
    lemma_frame_is_stable(encode_utf8(buffer), encode_utf8(more));
}

/// Nothing is dropped or duplicated: from a buffer that holds an encoded
/// message and then `rest`, exactly the payload is taken and exactly `rest`
/// stays.
pub proof fn lemma_pop_keeps_rest(payload: Seq<char>, rest: Seq<char>)
    requires
        encode_utf8(payload).len() <= usize::MAX,
    ensures
        pop_payload(encoded_message(payload) + rest) == Some(payload),
        pop_rest(encoded_message(payload) + rest) == rest,
{
    let first = encode_utf8(encoded_message(payload));
    let all = encode_utf8(encoded_message(payload) + rest);
    lemma_framing_round_trip(payload);
    lemma_pop_is_stable(encoded_message(payload), rest);
    lemma_encode_concat(encoded_message(payload), rest);
    assert(all.subrange(first.len() as int, all.len() as int) =~= encode_utf8(rest));
    encode_utf8_valid_utf8(rest);
    encode_utf8_decode_utf8(rest);
    encode_utf8_valid_utf8(payload);
    encode_utf8_decode_utf8(payload);
}

} // verus!
