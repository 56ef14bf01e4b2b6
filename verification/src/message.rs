//! Wire codec for the archive protocol.
//!
//! Every message starts with a one-byte discriminant tag. Text fields carry a
//! one-byte length prefix, which caps a single field at 255 bytes. Numeric
//! ids travel as fixed 8-byte big-endian integers. For the terminal text
//! field of a `Search` request and a `RetrieveSuccess` response the length
//! byte is present on the wire but decoding consumes every remaining byte of
//! the message instead of exactly the declared count; a connection carries
//! exactly one message, so the end of the stream delimits the field.

use vstd::prelude::*;
use vstd::slice::{slice_subrange, slice_to_vec};

verus! {

// ---------------------------------------------------------------------------
// Fixed 8-byte big-endian integers
// ---------------------------------------------------------------------------

/// The 8-byte big-endian encoding of `x`, most significant byte first.
pub open spec fn spec_u64_to_be(x: u64) -> Seq<u8> {
    seq![
        ((x >> 56) & 0xff) as u8,
        ((x >> 48) & 0xff) as u8,
        ((x >> 40) & 0xff) as u8,
        ((x >> 32) & 0xff) as u8,
        ((x >> 24) & 0xff) as u8,
        ((x >> 16) & 0xff) as u8,
        ((x >> 8) & 0xff) as u8,
        (x & 0xff) as u8,
    ]
}

/// The integer read from 8 big-endian bytes.
pub open spec fn spec_u64_from_be(s: Seq<u8>) -> u64
    recommends
        s.len() == 8,
{
    ((s[0] as u64) << 56) | ((s[1] as u64) << 48) | ((s[2] as u64) << 40) | ((s[3] as u64) << 32)
        | ((s[4] as u64) << 24) | ((s[5] as u64) << 16) | ((s[6] as u64) << 8) | (s[7] as u64)
}

/// An 8-byte big-endian encoding decodes back to the integer it came from.
pub proof fn lemma_u64_be_round_trip(x: u64)
    ensures
        spec_u64_from_be(spec_u64_to_be(x)) == x,
{
    assert((((((x >> 56) & 0xff) as u8) as u64) << 56) | (((((x >> 48) & 0xff) as u8) as u64)
        << 48) | (((((x >> 40) & 0xff) as u8) as u64) << 40) | (((((x >> 32) & 0xff) as u8) as u64)
        << 32) | (((((x >> 24) & 0xff) as u8) as u64) << 24) | (((((x >> 16) & 0xff) as u8) as u64)
        << 16) | (((((x >> 8) & 0xff) as u8) as u64) << 8) | (((x & 0xff) as u8) as u64) == x)
        by (bit_vector);
}

/// Appends the 8 big-endian bytes of `x` to `out`.
fn push_u64_be(out: &mut Vec<u8>, x: u64)
    ensures
        final(out)@ == old(out)@ + spec_u64_to_be(x),
{
    out.push(((x >> 56) & 0xff) as u8);
    out.push(((x >> 48) & 0xff) as u8);
    out.push(((x >> 40) & 0xff) as u8);
    out.push(((x >> 32) & 0xff) as u8);
    out.push(((x >> 24) & 0xff) as u8);
    out.push(((x >> 16) & 0xff) as u8);
    out.push(((x >> 8) & 0xff) as u8);
    out.push((x & 0xff) as u8);
    assert(out@ =~= old(out)@ + spec_u64_to_be(x));
}

/// Reads the big-endian integer stored at `bytes[off .. off + 8]`.
fn read_u64_be_at(bytes: &[u8], off: usize) -> (r: u64)
    requires
        off + 8 <= bytes@.len(),
    ensures
        r == spec_u64_from_be(bytes@.subrange(off as int, off as int + 8)),
{
    let r = ((bytes[off] as u64) << 56) | ((bytes[off + 1] as u64) << 48) | ((bytes[off + 2]
        as u64) << 40) | ((bytes[off + 3] as u64) << 32) | ((bytes[off + 4] as u64) << 24) | ((
    bytes[off + 5] as u64) << 16) | ((bytes[off + 6] as u64) << 8) | (bytes[off + 7] as u64);
    proof {
        let s = bytes@.subrange(off as int, off as int + 8);
        assert(s[0] == bytes@[off as int]);
        assert(s[1] == bytes@[off as int + 1]);
        assert(s[2] == bytes@[off as int + 2]);
        assert(s[3] == bytes@[off as int + 3]);
        assert(s[4] == bytes@[off as int + 4]);
        assert(s[5] == bytes@[off as int + 5]);
        assert(s[6] == bytes@[off as int + 6]);
        assert(s[7] == bytes@[off as int + 7]);
    }
    r
}

// ---------------------------------------------------------------------------
// Requests
// ---------------------------------------------------------------------------

/// A request from the client to the server. Text travels as raw bytes; the
/// boundary that owns the sockets also owns text encoding concerns.
#[derive(Debug, PartialEq, Eq)]
pub enum Request {
    /// Add the document to the archive.
    Publish { doc: Vec<u8> },
    /// Search the archive for a word.
    Search { word: Vec<u8> },
    /// Retrieve the document with the given id.
    Retrieve { id: u64 },
}

/// The mathematical value of a [`Request`].
pub enum RequestView {
    Publish { doc: Seq<u8> },
    Search { word: Seq<u8> },
    Retrieve { id: u64 },
}

impl View for Request {
    type V = RequestView;

    open spec fn view(&self) -> RequestView {
        match self {
            Request::Publish { doc } => RequestView::Publish { doc: doc@ },
            Request::Search { word } => RequestView::Search { word: word@ },
            Request::Retrieve { id } => RequestView::Retrieve { id: *id },
        }
    }
}

impl RequestView {
    /// A request is encodable when each text field fits its one-byte length
    /// prefix.
    pub open spec fn wf(self) -> bool {
        match self {
            RequestView::Publish { doc } => doc.len() <= 255,
            RequestView::Search { word } => word.len() <= 255,
            RequestView::Retrieve { .. } => true,
        }
    }
}

/// The exact wire bytes of an encodable request.
pub open spec fn spec_encode_request(r: RequestView) -> Seq<u8> {
    match r {
        RequestView::Publish { doc } => seq![0u8, doc.len() as u8] + doc,
        RequestView::Search { word } => seq![1u8, word.len() as u8] + word,
        RequestView::Retrieve { id } => seq![2u8] + spec_u64_to_be(id),
    }
}

/// The request carried by a complete message, or `None` when the bytes are
/// not a valid message: empty input, an unknown tag, or a field cut short.
/// Bytes past a `Publish` document or a `Retrieve` id are ignored; a `Search`
/// word extends to the end of the message.
pub open spec fn spec_decode_request(s: Seq<u8>) -> Option<RequestView> {
    if s.len() < 1 {
        None
    } else if s[0] == 0 {
        if s.len() < 2 {
            None
        } else {
            let l = s[1] as int;
            if s.len() < 2 + l {
                None
            } else {
                Some(RequestView::Publish { doc: s.subrange(2, 2 + l) })
            }
        }
    } else if s[0] == 1 {
        if s.len() < 2 {
            None
        } else {
            Some(RequestView::Search { word: s.subrange(2, s.len() as int) })
        }
    } else if s[0] == 2 {
        if s.len() < 9 {
            None
        } else {
            Some(RequestView::Retrieve { id: spec_u64_from_be(s.subrange(1, 9)) })
        }
    } else {
        None
    }
}

impl Request {
    /// Whether this request can be encoded (every text field at most 255
    /// bytes). Unverified callers check this before calling [`Self::to_bytes`].
    pub fn is_encodable(&self) -> (r: bool)
        ensures
            r == self@.wf(),
    {
        match self {
            Request::Publish { doc } => doc.len() <= 255,
            Request::Search { word } => word.len() <= 255,
            Request::Retrieve { .. } => true,
        }
    }

    /// Encodes the request into its exact wire bytes.
    pub fn to_bytes(&self) -> (r: Vec<u8>)
        requires
            self@.wf(),
        ensures
            r@ == spec_encode_request(self@),
    {
        let mut bytes: Vec<u8> = Vec::new();
        match self {
            Request::Publish { doc } => {
                bytes.push(0);
                bytes.push(doc.len() as u8);
                bytes.extend_from_slice(doc.as_slice());
                assert(bytes@ =~= spec_encode_request(self@));
            },
            Request::Search { word } => {
                bytes.push(1);
                bytes.push(word.len() as u8);
                bytes.extend_from_slice(word.as_slice());
                assert(bytes@ =~= spec_encode_request(self@));
            },
            Request::Retrieve { id } => {
                bytes.push(2);
                push_u64_be(&mut bytes, *id);
                assert(bytes@ =~= spec_encode_request(self@));
            },
        }
        bytes
    }

    /// Encodes the request when it fits the wire format and rejects it
    /// otherwise: a text field of 256 bytes or more yields `None`, never a
    /// silently corrupted frame.
    pub fn try_to_bytes(&self) -> (r: Option<Vec<u8>>)
        ensures
            match r {
                Some(bytes) => self@.wf() && bytes@ == spec_encode_request(self@),
                None => !self@.wf(),
            },
    {
        if self.is_encodable() {
            Some(self.to_bytes())
        } else {
            None
        }
    }

    /// Decodes one request from a complete message.
    pub fn from_bytes(bytes: &[u8]) -> (r: Option<Request>)
        ensures
            match r {
                Some(req) => spec_decode_request(bytes@) == Some(req@),
                None => spec_decode_request(bytes@) is None,
            },
    {
        if bytes.len() < 1 {
            return None;
        }
        let tag = bytes[0];
        if tag == 0 {
            if bytes.len() < 2 {
                return None;
            }
            let l = bytes[1] as usize;
            if bytes.len() < 2 + l {
                return None;
            }
            let doc = slice_to_vec(slice_subrange(bytes, 2, 2 + l));
            Some(Request::Publish { doc })
        } else if tag == 1 {
            if bytes.len() < 2 {
                return None;
            }
            let word = slice_to_vec(slice_subrange(bytes, 2, bytes.len()));
            Some(Request::Search { word })
        } else if tag == 2 {
            if bytes.len() < 9 {
                return None;
            }
            let id = read_u64_be_at(bytes, 1);
            Some(Request::Retrieve { id })
        } else {
            None
        }
    }
}

/// Decoding the encoding of an encodable request yields that request back.
pub proof fn lemma_request_round_trip(r: RequestView)
    requires
        r.wf(),
    ensures
        spec_decode_request(spec_encode_request(r)) == Some(r),
{
    let s = spec_encode_request(r);
    match r {
        RequestView::Publish { doc } => {
            assert(s[1] as int == doc.len());
            assert(s.subrange(2, 2 + doc.len() as int) =~= doc);
        },
        RequestView::Search { word } => {
            assert(s.subrange(2, s.len() as int) =~= word);
        },
        RequestView::Retrieve { id } => {
            assert(s.subrange(1, 9) =~= spec_u64_to_be(id));
            lemma_u64_be_round_trip(id);
        },
    }
}

/// A field of exactly 255 bytes or entries, the largest its one-byte
/// prefix can declare, still encodes and decodes exactly; 256 and up are
/// outside the wire format's contract ([`RequestView::wf`],
/// [`ResponseView::wf`]).
pub proof fn lemma_boundary_text_255(doc: Seq<u8>, word: Seq<u8>, ids: Seq<u64>)
    requires
        doc.len() == 255,
        word.len() == 255,
        ids.len() == 255,
    ensures
        spec_decode_request(spec_encode_request(RequestView::Publish { doc })) == Some(
            RequestView::Publish { doc },
        ),
        spec_decode_request(spec_encode_request(RequestView::Search { word })) == Some(
            RequestView::Search { word },
        ),
        spec_decode_response(spec_encode_response(ResponseView::RetrieveSuccess(doc))) == Some(
            ResponseView::RetrieveSuccess(doc),
        ),
        spec_decode_response(spec_encode_response(ResponseView::SearchSuccess(ids))) == Some(
            ResponseView::SearchSuccess(ids),
        ),
{
    lemma_request_round_trip(RequestView::Publish { doc });
    lemma_request_round_trip(RequestView::Search { word });
    lemma_response_round_trip(ResponseView::RetrieveSuccess(doc));
    lemma_response_round_trip(ResponseView::SearchSuccess(ids));
}

// ---------------------------------------------------------------------------
// Responses
// ---------------------------------------------------------------------------

/// A response from the server to the client.
#[derive(Debug, PartialEq, Eq)]
pub enum Response {
    /// The document was stored under the returned id.
    PublishSuccess(u64),
    /// The ids of every document that contains the word.
    SearchSuccess(Vec<u64>),
    /// The document that was asked for.
    RetrieveSuccess(Vec<u8>),
    /// The request could not be served.
    Failure,
}

/// The mathematical value of a [`Response`].
pub enum ResponseView {
    PublishSuccess(u64),
    SearchSuccess(Seq<u64>),
    RetrieveSuccess(Seq<u8>),
    Failure,
}

impl View for Response {
    type V = ResponseView;

    open spec fn view(&self) -> ResponseView {
        match self {
            Response::PublishSuccess(id) => ResponseView::PublishSuccess(*id),
            Response::SearchSuccess(ids) => ResponseView::SearchSuccess(ids@),
            Response::RetrieveSuccess(doc) => ResponseView::RetrieveSuccess(doc@),
            Response::Failure => ResponseView::Failure,
        }
    }
}

impl ResponseView {
    /// A response is encodable when each one-byte count or length prefix can
    /// hold its field.
    pub open spec fn wf(self) -> bool {
        match self {
            ResponseView::PublishSuccess(_) => true,
            ResponseView::SearchSuccess(ids) => ids.len() <= 255,
            ResponseView::RetrieveSuccess(doc) => doc.len() <= 255,
            ResponseView::Failure => true,
        }
    }
}

/// The concatenation of the 8-byte big-endian encodings of `ids`.
pub open spec fn spec_ids_bytes(ids: Seq<u64>) -> Seq<u8>
    decreases ids.len(),
{
    if ids.len() == 0 {
        Seq::empty()
    } else {
        spec_ids_bytes(ids.drop_last()) + spec_u64_to_be(ids.last())
    }
}

pub proof fn lemma_ids_bytes_len(ids: Seq<u64>)
    ensures
        spec_ids_bytes(ids).len() == 8 * ids.len(),
    decreases ids.len(),
{
    if ids.len() > 0 {
        lemma_ids_bytes_len(ids.drop_last());
    }
}

pub proof fn lemma_ids_bytes_index(ids: Seq<u64>, k: int)
    requires
        0 <= k < ids.len(),
    ensures
        spec_ids_bytes(ids).subrange(8 * k, 8 * k + 8) == spec_u64_to_be(ids[k]),
    decreases ids.len(),
{
    lemma_ids_bytes_len(ids);
    lemma_ids_bytes_len(ids.drop_last());
    if k == ids.len() - 1 {
        assert(spec_ids_bytes(ids).subrange(8 * k, 8 * k + 8) =~= spec_u64_to_be(ids.last()));
    } else {
        lemma_ids_bytes_index(ids.drop_last(), k);
        assert(spec_ids_bytes(ids).subrange(8 * k, 8 * k + 8) =~= spec_ids_bytes(
            ids.drop_last(),
        ).subrange(8 * k, 8 * k + 8));
    }
}

/// The exact wire bytes of an encodable response.
pub open spec fn spec_encode_response(r: ResponseView) -> Seq<u8> {
    match r {
        ResponseView::PublishSuccess(id) => seq![0u8] + spec_u64_to_be(id),
        ResponseView::SearchSuccess(ids) => seq![1u8, ids.len() as u8] + spec_ids_bytes(ids),
        ResponseView::RetrieveSuccess(doc) => seq![2u8, doc.len() as u8] + doc,
        ResponseView::Failure => seq![3u8],
    }
}

/// The response carried by a complete message, or `None` when the bytes are
/// not a valid message. Bytes past a `PublishSuccess` id or a declared id
/// list are ignored; a `RetrieveSuccess` document extends to the end of the
/// message.
pub open spec fn spec_decode_response(s: Seq<u8>) -> Option<ResponseView> {
    if s.len() < 1 {
        None
    } else if s[0] == 0 {
        if s.len() < 9 {
            None
        } else {
            Some(ResponseView::PublishSuccess(spec_u64_from_be(s.subrange(1, 9))))
        }
    } else if s[0] == 1 {
        if s.len() < 2 {
            None
        } else {
            let c = s[1] as int;
            if s.len() < 2 + 8 * c {
                None
            } else {
                Some(ResponseView::SearchSuccess(
                    Seq::new(c as nat, |k: int| spec_u64_from_be(s.subrange(2 + 8 * k, 10 + 8 * k))),
                ))
            }
        }
    } else if s[0] == 2 {
        if s.len() < 2 {
            None
        } else {
            Some(ResponseView::RetrieveSuccess(s.subrange(2, s.len() as int)))
        }
    } else if s[0] == 3 {
        Some(ResponseView::Failure)
    } else {
        None
    }
}

impl Response {
    /// Whether this response can be encoded (every count or text field at
    /// most 255 entries or bytes).
    pub fn is_encodable(&self) -> (r: bool)
        ensures
            r == self@.wf(),
    {
        match self {
            Response::PublishSuccess(_) => true,
            Response::SearchSuccess(ids) => ids.len() <= 255,
            Response::RetrieveSuccess(doc) => doc.len() <= 255,
            Response::Failure => true,
        }
    }

    /// Encodes the response into its exact wire bytes.
    pub fn to_bytes(&self) -> (r: Vec<u8>)
        requires
            self@.wf(),
        ensures
            r@ == spec_encode_response(self@),
    {
        let mut bytes: Vec<u8> = Vec::new();
        match self {
            Response::PublishSuccess(id) => {
                bytes.push(0);
                push_u64_be(&mut bytes, *id);
                assert(bytes@ =~= spec_encode_response(self@));
            },
            Response::SearchSuccess(ids) => {
                bytes.push(1);
                bytes.push(ids.len() as u8);
                let mut i: usize = 0;
                while i < ids.len()
                    invariant
                        i <= ids@.len(),
                        ids@.len() <= 255,
                        bytes@ == seq![1u8, ids@.len() as u8] + spec_ids_bytes(
                            ids@.take(i as int),
                        ),
                    decreases ids@.len() - i,
                {
                    push_u64_be(&mut bytes, ids[i]);
                    i += 1;
                    proof {
                        assert(ids@.take(i as int).drop_last() =~= ids@.take(i as int - 1));
                        assert(bytes@ =~= seq![1u8, ids@.len() as u8] + spec_ids_bytes(
                            ids@.take(i as int),
                        ));
                    }
                }
                proof {
                    assert(ids@.take(ids@.len() as int) =~= ids@);
                }
            },
            Response::RetrieveSuccess(doc) => {
                bytes.push(2);
                bytes.push(doc.len() as u8);
                bytes.extend_from_slice(doc.as_slice());
                assert(bytes@ =~= spec_encode_response(self@));
            },
            Response::Failure => {
                bytes.push(3);
                assert(bytes@ =~= spec_encode_response(self@));
            },
        }
        bytes
    }

    /// Encodes the response when it fits the wire format and rejects it
    /// otherwise: an id list or a document of 256 entries or bytes and up
    /// yields `None`, never a silently corrupted frame.
    pub fn try_to_bytes(&self) -> (r: Option<Vec<u8>>)
        ensures
            match r {
                Some(bytes) => self@.wf() && bytes@ == spec_encode_response(self@),
                None => !self@.wf(),
            },
    {
        if self.is_encodable() {
            Some(self.to_bytes())
        } else {
            None
        }
    }

    /// Decodes one response from a complete message.
    pub fn from_bytes(bytes: &[u8]) -> (r: Option<Response>)
        ensures
            match r {
                Some(resp) => spec_decode_response(bytes@) == Some(resp@),
                None => spec_decode_response(bytes@) is None,
            },
    {
        if bytes.len() < 1 {
            return None;
        }
        let tag = bytes[0];
        if tag == 0 {
            if bytes.len() < 9 {
                return None;
            }
            let id = read_u64_be_at(bytes, 1);
            Some(Response::PublishSuccess(id))
        } else if tag == 1 {
            if bytes.len() < 2 {
                return None;
            }
            let c = bytes[1] as usize;
            if bytes.len() < 2 + 8 * c {
                return None;
            }
            let mut ids: Vec<u64> = Vec::new();
            let mut i: usize = 0;
            while i < c
                invariant
                    i <= c,
                    c <= 255,
                    2 + 8 * c <= bytes@.len(),
                    ids@.len() == i,
                    forall|k: int|
                        0 <= k < i ==> ids@[k] == spec_u64_from_be(
                            #[trigger] bytes@.subrange(2 + 8 * k, 10 + 8 * k),
                        ),
                decreases c - i,
            {
                let v = read_u64_be_at(bytes, 2 + 8 * i);
                ids.push(v);
                i += 1;
            }
            proof {
                assert(ids@ =~= Seq::new(
                    c as nat,
                    |k: int| spec_u64_from_be(bytes@.subrange(2 + 8 * k, 10 + 8 * k)),
                ));
            }
            Some(Response::SearchSuccess(ids))
        } else if tag == 2 {
            if bytes.len() < 2 {
                return None;
            }
            let doc = slice_to_vec(slice_subrange(bytes, 2, bytes.len()));
            Some(Response::RetrieveSuccess(doc))
        } else if tag == 3 {
            Some(Response::Failure)
        } else {
            None
        }
    }
}

/// Decoding the encoding of an encodable response yields that response back.
pub proof fn lemma_response_round_trip(r: ResponseView)
    requires
        r.wf(),
    ensures
        spec_decode_response(spec_encode_response(r)) == Some(r),
{
    let s = spec_encode_response(r);
    match r {
        ResponseView::PublishSuccess(id) => {
            assert(s.subrange(1, 9) =~= spec_u64_to_be(id));
            lemma_u64_be_round_trip(id);
        },
        ResponseView::SearchSuccess(ids) => {
            lemma_ids_bytes_len(ids);
            assert(s[1] as int == ids.len());
            let decoded = Seq::new(
                ids.len(),
                |k: int| spec_u64_from_be(s.subrange(2 + 8 * k, 10 + 8 * k)),
            );
            assert forall|k: int| 0 <= k < ids.len() implies decoded[k] == ids[k] by {
                assert(s.subrange(2 + 8 * k, 10 + 8 * k) =~= spec_ids_bytes(ids).subrange(
                    8 * k,
                    8 * k + 8,
                ));
                lemma_ids_bytes_index(ids, k);
                lemma_u64_be_round_trip(ids[k]);
            }
            assert(decoded =~= ids);
        },
        ResponseView::RetrieveSuccess(doc) => {
            assert(s.subrange(2, s.len() as int) =~= doc);
        },
        ResponseView::Failure => {
        },
    }
}

} // verus!
