//! The wire protocol: tag-prefixed, big-endian frames for requests and
//! responses.
use vstd::prelude::*;
use vstd::slice::slice_subrange;
use vstd::slice::slice_to_vec;
use vstd::utf8::decode_utf8;
use vstd::utf8::encode_utf8;
use vstd::utf8::valid_utf8;

verus! {

broadcast use vstd::utf8::encode_utf8_valid_utf8, vstd::utf8::encode_utf8_decode_utf8;

/// The eight big-endian bytes of `n`.
pub open spec fn be_of(n: u64) -> Seq<u8> {
    seq![
        (n >> 56u64) as u8,
        (n >> 48u64) as u8,
        (n >> 40u64) as u8,
        (n >> 32u64) as u8,
        (n >> 24u64) as u8,
        (n >> 16u64) as u8,
        (n >> 8u64) as u8,
        n as u8,
    ]
}

/// The integer whose big-endian bytes are the first eight of `b`.
pub open spec fn u64_of_be(b: Seq<u8>) -> u64
    recommends
        b.len() >= 8,
{
    ((b[0] as u64) << 56u64) | ((b[1] as u64) << 48u64) | ((b[2] as u64) << 40u64) | ((
    b[3] as u64) << 32u64) | ((b[4] as u64) << 24u64) | ((b[5] as u64) << 16u64) | ((
    b[6] as u64) << 8u64) | (b[7] as u64)
}

pub proof fn lemma_be_round_trip(n: u64)
    ensures
        u64_of_be(be_of(n)) == n,
{
    let b = be_of(n);
    assert(((((n >> 56u64) as u8) as u64) << 56u64) | ((((n >> 48u64) as u8) as u64) << 48u64)
        | ((((n >> 40u64) as u8) as u64) << 40u64) | ((((n >> 32u64) as u8) as u64) << 32u64)
        | ((((n >> 24u64) as u8) as u64) << 24u64) | ((((n >> 16u64) as u8) as u64) << 16u64)
        | ((((n >> 8u64) as u8) as u64) << 8u64) | ((n as u8) as u64) == n) by (bit_vector);
}

/// Appends the eight big-endian bytes of `n`.
fn push_be(out: &mut Vec<u8>, n: u64)
    ensures
        final(out)@ == old(out)@ + be_of(n),
{
    out.push((n >> 56u64) as u8);
    out.push((n >> 48u64) as u8);
    out.push((n >> 40u64) as u8);
    out.push((n >> 32u64) as u8);
    out.push((n >> 24u64) as u8);
    out.push((n >> 16u64) as u8);
    out.push((n >> 8u64) as u8);
    out.push(n as u8);
    assert(final(out)@ =~= old(out)@ + be_of(n));
}

/// Reads the big-endian integer held in `b[at..at + 8]`.
fn read_be(b: &[u8], at: usize) -> (r: u64)
    requires
        at + 8 <= b@.len(),
    ensures
        r == u64_of_be(b@.subrange(at as int, at + 8)),
{
    ((b[at] as u64) << 56u64) | ((b[at + 1] as u64) << 48u64) | ((b[at + 2] as u64) << 40u64)
        | ((b[at + 3] as u64) << 32u64) | ((b[at + 4] as u64) << 24u64) | ((b[at + 5] as u64)
        << 16u64) | ((b[at + 6] as u64) << 8u64) | (b[at + 7] as u64)
}

/// Appends `bytes`.
fn push_all(out: &mut Vec<u8>, bytes: &[u8])
    ensures
        final(out)@ == old(out)@ + bytes@,
{
    let mut i: usize = 0;
    while i < bytes.len()
        invariant
            i <= bytes@.len(),
            out@ == old(out)@ + bytes@.subrange(0, i as int),
        decreases bytes@.len() - i,
    {
        out.push(bytes[i]);
        i = i + 1;
        assert(out@ =~= old(out)@ + bytes@.subrange(0, i as int));
    }
    assert(bytes@.subrange(0, i as int) =~= bytes@);
}

/// Relies on String::from_utf8: it succeeds exactly on valid UTF-8, and the
/// string then holds the characters that the bytes encode.
#[verifier::external_body]
fn string_from_utf8(bytes: Vec<u8>) -> (r: Option<String>)
    ensures
        r is Some <==> valid_utf8(bytes@),
        r matches Some(s) ==> s@ == decode_utf8(bytes@),
{
    String::from_utf8(bytes).ok()
}

/// Decodes `b[at..]` as UTF-8 text.
fn text_from(b: &[u8], at: usize) -> (r: Option<String>)
    requires
        at <= b@.len(),
    ensures
        r is Some <==> valid_utf8(b@.subrange(at as int, b@.len() as int)),
        r matches Some(s) ==> s@ == decode_utf8(b@.subrange(at as int, b@.len() as int)),
{
    let tail = slice_subrange(b, at, b.len());
    string_from_utf8(slice_to_vec(tail))
}

/// The length field of a frame that carries text, from the text's bytes.
pub open spec fn text_field(t: Seq<char>) -> Seq<u8> {
    be_of(encode_utf8(t).len() as u64) + encode_utf8(t)
}

/// Appends the length-prefixed UTF-8 bytes of `s`.
fn push_text(out: &mut Vec<u8>, s: &String)
    ensures
        final(out)@ == old(out)@ + text_field(s@),
{
    let bytes = s.as_str().as_bytes();
    push_be(out, bytes.len() as u64);
    push_all(out, bytes);
    assert(final(out)@ =~= old(out)@ + text_field(s@));
}

/// A request from a client to the server.
#[derive(Debug, PartialEq, Eq)]
pub enum Request {
    /// Add the document `doc` to the archive.
    Publish { doc: String },
    /// Search the archive for the word `word`.
    Search { word: String },
    /// Retrieve the document with identifier `id`.
    Retrieve { id: usize },
}

/// What a request says, as mathematical values.
pub enum RequestModel {
    Publish(Seq<char>),
    Search(Seq<char>),
    Retrieve(usize),
}

impl View for Request {
    type V = RequestModel;

    open spec fn view(&self) -> RequestModel {
        match self {
            Request::Publish { doc } => RequestModel::Publish(doc@),
            Request::Search { word } => RequestModel::Search(word@),
            Request::Retrieve { id } => RequestModel::Retrieve(*id),
        }
    }
}

pub const TAG_PUBLISH: u8 = 1;
pub const TAG_SEARCH: u8 = 2;
pub const TAG_RETRIEVE: u8 = 3;
pub const TAG_FAILURE: u8 = 4;

/// The frame that encodes a request.
pub open spec fn request_bytes(r: RequestModel) -> Seq<u8> {
    match r {
        RequestModel::Publish(d) => seq![TAG_PUBLISH] + text_field(d),
        RequestModel::Search(w) => seq![TAG_SEARCH] + text_field(w),
        RequestModel::Retrieve(id) => seq![TAG_RETRIEVE] + be_of(id as u64),
    }
}

/// The value of the eight-byte field that follows the tag.
pub open spec fn head_field(b: Seq<u8>) -> u64 {
    u64_of_be(b.subrange(1, 9))
}

/// The bytes after the tag and the eight-byte field.
pub open spec fn body(b: Seq<u8>) -> Seq<u8> {
    b.subrange(9, b.len() as int)
}

/// `b` is a frame with a tag, a length field and exactly that many bytes
/// of valid UTF-8 text.
pub open spec fn is_text_frame(b: Seq<u8>) -> bool {
    b.len() >= 9 && head_field(b) == b.len() - 9 && valid_utf8(body(b))
}

/// `b` is exactly one well-formed request frame.
pub open spec fn is_request_frame(b: Seq<u8>) -> bool {
    b.len() >= 1 && ((b[0] == TAG_PUBLISH || b[0] == TAG_SEARCH) && is_text_frame(b) || b[0]
        == TAG_RETRIEVE && b.len() == 9 && head_field(b) <= usize::MAX)
}

/// The request that a well-formed request frame holds.
pub open spec fn request_of(b: Seq<u8>) -> RequestModel {
    if b[0] == TAG_PUBLISH {
        RequestModel::Publish(decode_utf8(body(b)))
    } else if b[0] == TAG_SEARCH {
        RequestModel::Search(decode_utf8(body(b)))
    } else {
        RequestModel::Retrieve(head_field(b) as usize)
    }
}

impl Request {
    /// Encodes the request as one frame.
    pub fn to_bytes(&self) -> (r: Vec<u8>)
        ensures
            r@ == request_bytes(self@),
    {
        let mut bytes: Vec<u8> = Vec::new();
        match self {
            Request::Publish { doc } => {
                bytes.push(TAG_PUBLISH);
                push_text(&mut bytes, doc);
            },
            Request::Search { word } => {
                bytes.push(TAG_SEARCH);
                push_text(&mut bytes, word);
            },
            Request::Retrieve { id } => {
                bytes.push(TAG_RETRIEVE);
                push_be(&mut bytes, *id as u64);
            },
        }
        assert(bytes@ =~= request_bytes(self@));
        bytes
    }

    /// Decodes one whole request frame; `None` where `bytes` is not exactly
    /// one well-formed frame (unknown tag, truncated or over-long, or text
    /// that is not UTF-8).
    pub fn from_bytes(bytes: &[u8]) -> (r: Option<Request>)
        ensures
            r is Some <==> is_request_frame(bytes@),
            r matches Some(q) ==> q@ == request_of(bytes@),
    {
        if bytes.len() < 9 {
            return None;
        }
        let tag = bytes[0];
        let field = read_be(bytes, 1);
        if tag == TAG_PUBLISH || tag == TAG_SEARCH {
            if field != (bytes.len() - 9) as u64 {
                return None;
            }
            match text_from(bytes, 9) {
                Some(text) => {
                    if tag == TAG_PUBLISH {
                        Some(Request::Publish { doc: text })
                    } else {
                        Some(Request::Search { word: text })
                    }
                },
                None => None,
            }
        } else if tag == TAG_RETRIEVE {
            if bytes.len() != 9 || field > usize::MAX as u64 {
                return None;
            }
            Some(Request::Retrieve { id: field as usize })
        } else {
            None
        }
    }
}

/// Text that a `String` can hold: its UTF-8 bytes fit in memory.
pub open spec fn text_fits(t: Seq<char>) -> bool {
    encode_utf8(t).len() <= usize::MAX
}

/// What a `Request` value can hold.
pub open spec fn request_fits(r: RequestModel) -> bool {
    match r {
        RequestModel::Publish(t) | RequestModel::Search(t) => text_fits(t),
        RequestModel::Retrieve(_) => true,
    }
}

/// Decoding the encoding of any request gives that request back.
pub proof fn lemma_request_round_trip(r: RequestModel)
    requires
        request_fits(r),
    ensures
        is_request_frame(request_bytes(r)),
        request_of(request_bytes(r)) == r,
{
    let b = request_bytes(r);
    match r {
        RequestModel::Publish(t) | RequestModel::Search(t) => {
            let e = encode_utf8(t);
            lemma_be_round_trip(e.len() as u64);
            assert(b.subrange(1, 9) =~= be_of(e.len() as u64));
            assert(body(b) =~= e);
        },
        RequestModel::Retrieve(id) => {
            lemma_be_round_trip(id as u64);
            assert(b.subrange(1, 9) =~= be_of(id as u64));
        },
    }
}

/// A response from the server to a client.
#[derive(Debug, PartialEq, Eq)]
pub enum Response {
    /// The document was added under the given identifier.
    PublishSuccess(usize),
    /// The identifiers of the documents that hold the searched word.
    SearchSuccess(Vec<usize>),
    /// The retrieved document.
    RetrieveSuccess(String),
    /// The request could not be served.
    Failure,
}

/// What a response says, as mathematical values.
pub enum ResponseModel {
    PublishSuccess(usize),
    SearchSuccess(Seq<usize>),
    RetrieveSuccess(Seq<char>),
    Failure,
}

impl View for Response {
    type V = ResponseModel;

    open spec fn view(&self) -> ResponseModel {
        match self {
            Response::PublishSuccess(id) => ResponseModel::PublishSuccess(*id),
            Response::SearchSuccess(ids) => ResponseModel::SearchSuccess(ids@),
            Response::RetrieveSuccess(doc) => ResponseModel::RetrieveSuccess(doc@),
            Response::Failure => ResponseModel::Failure,
        }
    }
}

/// The big-endian bytes of each identifier, one after another.
pub open spec fn ids_bytes(s: Seq<usize>) -> Seq<u8>
    decreases s.len(),
{
    if s.len() == 0 {
        seq![]
    } else {
        ids_bytes(s.drop_last()) + be_of(s.last() as u64)
    }
}

/// The frame that encodes a response.
pub open spec fn response_bytes(r: ResponseModel) -> Seq<u8> {
    match r {
        ResponseModel::PublishSuccess(id) => seq![TAG_PUBLISH] + be_of(id as u64),
        ResponseModel::SearchSuccess(ids) => seq![TAG_SEARCH] + be_of(ids.len() as u64)
            + ids_bytes(ids),
        ResponseModel::RetrieveSuccess(t) => seq![TAG_RETRIEVE] + text_field(t),
        ResponseModel::Failure => seq![TAG_FAILURE],
    }
}

/// The `i`-th identifier of a search result frame.
pub open spec fn id_at(b: Seq<u8>, i: int) -> u64 {
    u64_of_be(b.subrange(9 + 8 * i, 17 + 8 * i))
}

/// `b` is a search result frame: a count, then that many identifiers.
pub open spec fn is_ids_frame(b: Seq<u8>) -> bool {
    &&& b.len() >= 9
    &&& b.len() - 9 == 8 * head_field(b)
    &&& forall|i: int| 0 <= i < head_field(b) ==> #[trigger] id_at(b, i) <= usize::MAX
}

/// `b` is exactly one well-formed response frame.
pub open spec fn is_response_frame(b: Seq<u8>) -> bool {
    b.len() >= 1 && (b[0] == TAG_PUBLISH && b.len() == 9 && head_field(b) <= usize::MAX || b[0]
        == TAG_SEARCH && is_ids_frame(b) || b[0] == TAG_RETRIEVE && is_text_frame(b) || b[0]
        == TAG_FAILURE && b.len() == 1)
}

/// The response that a well-formed response frame holds.
pub open spec fn response_of(b: Seq<u8>) -> ResponseModel {
    if b[0] == TAG_PUBLISH {
        ResponseModel::PublishSuccess(head_field(b) as usize)
    } else if b[0] == TAG_SEARCH {
        ResponseModel::SearchSuccess(Seq::new(head_field(b) as nat, |i: int| id_at(b, i) as usize))
    } else if b[0] == TAG_RETRIEVE {
        ResponseModel::RetrieveSuccess(decode_utf8(body(b)))
    } else {
        ResponseModel::Failure
    }
}

proof fn lemma_ids_bytes(s: Seq<usize>)
    ensures
        ids_bytes(s).len() == 8 * s.len(),
        forall|i: int|
            0 <= i < s.len() ==> #[trigger] ids_bytes(s).subrange(8 * i, 8 * i + 8) == be_of(
                s[i] as u64,
            ),
    decreases s.len(),
{
    if s.len() > 0 {
        let p = s.drop_last();
        lemma_ids_bytes(p);
        assert forall|i: int| 0 <= i < s.len() implies #[trigger] ids_bytes(s).subrange(
            8 * i,
            8 * i + 8,
        ) == be_of(s[i] as u64) by {
            if i < p.len() {
                assert(ids_bytes(s).subrange(8 * i, 8 * i + 8) =~= ids_bytes(p).subrange(
                    8 * i,
                    8 * i + 8,
                ));
            } else {
                assert(ids_bytes(s).subrange(8 * i, 8 * i + 8) =~= be_of(s.last() as u64));
            }
        }
    }
}

impl Response {
    /// Encodes the response as one frame.
    pub fn to_bytes(&self) -> (r: Vec<u8>)
        ensures
            r@ == response_bytes(self@),
    {
        let mut bytes: Vec<u8> = Vec::new();
        match self {
            Response::PublishSuccess(id) => {
                bytes.push(TAG_PUBLISH);
                push_be(&mut bytes, *id as u64);
            },
            Response::SearchSuccess(ids) => {
                bytes.push(TAG_SEARCH);
                push_be(&mut bytes, ids.len() as u64);
                let ghost head = bytes@;
                let mut i: usize = 0;
                while i < ids.len()
                    invariant
                        i <= ids@.len(),
                        bytes@ == head + ids_bytes(ids@.take(i as int)),
                    decreases ids@.len() - i,
                {
                    push_be(&mut bytes, ids[i] as u64);
                    i = i + 1;
                    assert(ids@.take(i as int).drop_last() =~= ids@.take(i - 1));
                    assert(bytes@ =~= head + ids_bytes(ids@.take(i as int)));
                }
                assert(ids@.take(i as int) =~= ids@);
            },
            Response::RetrieveSuccess(doc) => {
                bytes.push(TAG_RETRIEVE);
                push_text(&mut bytes, doc);
            },
            Response::Failure => {
                bytes.push(TAG_FAILURE);
            },
        }
        assert(bytes@ =~= response_bytes(self@));
        bytes
    }

    /// Decodes one whole response frame; `None` where `bytes` is not exactly
    /// one well-formed frame.
    pub fn from_bytes(bytes: &[u8]) -> (r: Option<Response>)
        ensures
            r is Some <==> is_response_frame(bytes@),
            r matches Some(q) ==> q@ == response_of(bytes@),
    {
        if bytes.len() == 0 {
            return None;
        }
        let tag = bytes[0];
        if tag == TAG_FAILURE {
            return if bytes.len() == 1 {
                Some(Response::Failure)
            } else {
                None
            };
        }
        if bytes.len() < 9 {
            return None;
        }
        let field = read_be(bytes, 1);
        if tag == TAG_PUBLISH {
            if bytes.len() != 9 || field > usize::MAX as u64 {
                return None;
            }
            Some(Response::PublishSuccess(field as usize))
        } else if tag == TAG_SEARCH {
            let rest = bytes.len() - 9;
            if rest % 8 != 0 || field != (rest / 8) as u64 {
                proof {
                    assert(rest != 8 * head_field(bytes@)) by (nonlinear_arith)
                        requires
                            rest % 8 != 0 || field != (rest / 8) as u64,
                            field == head_field(bytes@),
                    ;
                }
                return None;
            }
            let count = rest / 8;
            let mut ids: Vec<usize> = Vec::new();
            let mut i: usize = 0;
            while i < count
                invariant
                    count == head_field(bytes@),
                    bytes@.len() == 9 + 8 * count,
                    bytes@.len() <= usize::MAX,
                    i <= count,
                    ids@ == Seq::new(i as nat, |j: int| id_at(bytes@, j) as usize),
                    forall|j: int| 0 <= j < i ==> #[trigger] id_at(bytes@, j) <= usize::MAX,
                decreases count - i,
            {
                assert(8 * i + 8 <= 8 * count) by (nonlinear_arith)
                    requires
                        i < count,
                ;
                let at = 9 + 8 * i;
                let id = read_be(bytes, at);
                assert(id == id_at(bytes@, i as int));
                if id > usize::MAX as u64 {
                    return None;
                }
                ids.push(id as usize);
                i = i + 1;
                assert(ids@ =~= Seq::new(i as nat, |j: int| id_at(bytes@, j) as usize));
            }
            Some(Response::SearchSuccess(ids))
        } else if tag == TAG_RETRIEVE {
            if field != (bytes.len() - 9) as u64 {
                return None;
            }
            match text_from(bytes, 9) {
                Some(text) => Some(Response::RetrieveSuccess(text)),
                None => None,
            }
        } else {
            None
        }
    }
}

/// What a `Response` value can hold.
pub open spec fn response_fits(r: ResponseModel) -> bool {
    match r {
        ResponseModel::SearchSuccess(ids) => 8 * ids.len() <= usize::MAX,
        ResponseModel::RetrieveSuccess(t) => text_fits(t),
        _ => true,
    }
}

/// Decoding the encoding of any response gives that response back.
pub proof fn lemma_response_round_trip(r: ResponseModel)
    requires
        response_fits(r),
    ensures
        is_response_frame(response_bytes(r)),
        response_of(response_bytes(r)) == r,
{
    let b = response_bytes(r);
    match r {
        ResponseModel::PublishSuccess(id) => {
            lemma_be_round_trip(id as u64);
            assert(b.subrange(1, 9) =~= be_of(id as u64));
        },
        ResponseModel::SearchSuccess(ids) => {
            lemma_be_round_trip(ids.len() as u64);
            assert(b.subrange(1, 9) =~= be_of(ids.len() as u64));
            lemma_ids_bytes(ids);
            assert forall|i: int| 0 <= i < ids.len() implies #[trigger] id_at(b, i) == ids[i] as u64 by {
                assert(b.subrange(9 + 8 * i, 17 + 8 * i) =~= ids_bytes(ids).subrange(8 * i, 8 * i + 8));
                lemma_be_round_trip(ids[i] as u64);
            }
            assert(Seq::new(head_field(b) as nat, |i: int| id_at(b, i) as usize) =~= ids);
        },
        ResponseModel::RetrieveSuccess(t) => {
            let e = encode_utf8(t);
            lemma_be_round_trip(e.len() as u64);
            assert(b.subrange(1, 9) =~= be_of(e.len() as u64));
            assert(body(b) =~= e);
        },
        ResponseModel::Failure => {},
    }
}

/// The most bytes of text, or of identifiers, that a frame may declare; a
/// reader refuses a frame that declares more before reading it.
pub const MAX_FIELD_LEN: u64 = 67108864;

/// How many more bytes a reader takes to complete a frame that begins with
/// `b` and carries the declared field after an eight-byte length: `None`
/// where the length is over the bound or `b` already runs past the frame.
pub open spec fn text_need(b: Seq<u8>) -> Option<int> {
    if b.len() < 9 {
        Some(9 - b.len())
    } else if head_field(b) > MAX_FIELD_LEN || b.len() > 9 + head_field(b) {
        None
    } else {
        Some(9 + head_field(b) - b.len())
    }
}

/// How many more bytes complete the request frame that `b` begins; zero
/// where `b` is a whole frame, `None` where no frame begins so.
pub open spec fn request_need(b: Seq<u8>) -> Option<int> {
    if b.len() == 0 {
        Some(1)
    } else if b[0] == TAG_PUBLISH || b[0] == TAG_SEARCH {
        text_need(b)
    } else if b[0] == TAG_RETRIEVE && b.len() <= 9 {
        Some(9 - b.len())
    } else {
        None
    }
}

/// How many more bytes complete the response frame that `b` begins; zero
/// where `b` is a whole frame, `None` where no frame begins so.
pub open spec fn response_need(b: Seq<u8>) -> Option<int> {
    if b.len() == 0 {
        Some(1)
    } else if b[0] == TAG_PUBLISH && b.len() <= 9 {
        Some(9 - b.len())
    } else if b[0] == TAG_SEARCH {
        if b.len() < 9 {
            Some(9 - b.len())
        } else if 8 * head_field(b) > MAX_FIELD_LEN || b.len() > 9 + 8 * head_field(b) {
            None
        } else {
            Some(9 + 8 * head_field(b) - b.len())
        }
    } else if b[0] == TAG_RETRIEVE {
        text_need(b)
    } else if b[0] == TAG_FAILURE && b.len() == 1 {
        Some(0)
    } else {
        None
    }
}

/// A reader that takes, step by step, the bytes that `request_need` asks
/// for reads exactly one whole request frame whose declared length is within
/// the bound: on each proper prefix it asks for more bytes, never past the
/// frame's end, and on the whole frame for none.
pub proof fn lemma_request_need_reads_frame(b: Seq<u8>, k: int)
    requires
        is_request_frame(b),
        b[0] == TAG_RETRIEVE || head_field(b) <= MAX_FIELD_LEN,
        0 <= k <= b.len(),
    ensures
        request_need(b.take(k)) matches Some(n) && k + n <= b.len() && (n == 0 <==> k == b.len()),
{
    let p = b.take(k);
    if k >= 9 {
        assert(p.subrange(1, 9) =~= b.subrange(1, 9));
    }
}

/// A reader that takes, step by step, the bytes that `response_need` asks
/// for reads exactly one whole response frame whose declared length is within
/// the bound: on each proper prefix it asks for more bytes, never past the
/// frame's end, and on the whole frame for none.
pub proof fn lemma_response_need_reads_frame(b: Seq<u8>, k: int)
    requires
        is_response_frame(b),
        b[0] == TAG_SEARCH ==> 8 * head_field(b) <= MAX_FIELD_LEN,
        b[0] == TAG_RETRIEVE ==> head_field(b) <= MAX_FIELD_LEN,
        0 <= k <= b.len(),
    ensures
        response_need(b.take(k)) matches Some(n) && k + n <= b.len() && (n == 0 <==> k == b.len()),
{
    let p = b.take(k);
    if k >= 9 {
        assert(p.subrange(1, 9) =~= b.subrange(1, 9));
    }
}

/// The exec form of `text_need`.
fn text_needed(b: &[u8]) -> (r: Option<usize>)
    requires
        b@.len() >= 1,
    ensures
        match r {
            Some(n) => text_need(b@) == Some(n as int),
            None => text_need(b@) is None,
        },
{
    if b.len() < 9 {
        return Some(9 - b.len());
    }
    let field = read_be(b, 1);
    if field > MAX_FIELD_LEN || b.len() as u64 > 9 + field {
        None
    } else {
        Some((9 + field - b.len() as u64) as usize)
    }
}

impl Request {
    /// How many more bytes a reader must take to complete the request frame
    /// that `prefix` begins: zero once it is whole, `None` where the tag is
    /// unknown or a declared length is over `MAX_FIELD_LEN`.
    pub fn bytes_needed(prefix: &[u8]) -> (r: Option<usize>)
        ensures
            match r {
                Some(n) => request_need(prefix@) == Some(n as int),
                None => request_need(prefix@) is None,
            },
    {
        if prefix.len() == 0 {
            return Some(1);
        }
        let tag = prefix[0];
        if tag == TAG_PUBLISH || tag == TAG_SEARCH {
            text_needed(prefix)
        } else if tag == TAG_RETRIEVE && prefix.len() <= 9 {
            Some(9 - prefix.len())
        } else {
            None
        }
    }
}

impl Response {
    /// How many more bytes a reader must take to complete the response frame
    /// that `prefix` begins: zero once it is whole, `None` where the tag is
    /// unknown or a declared length is over `MAX_FIELD_LEN`.
    pub fn bytes_needed(prefix: &[u8]) -> (r: Option<usize>)
        ensures
            match r {
                Some(n) => response_need(prefix@) == Some(n as int),
                None => response_need(prefix@) is None,
            },
    {
        if prefix.len() == 0 {
            return Some(1);
        }
        let tag = prefix[0];
        if tag == TAG_PUBLISH && prefix.len() <= 9 {
            Some(9 - prefix.len())
        } else if tag == TAG_SEARCH {
            if prefix.len() < 9 {
                return Some(9 - prefix.len());
            }
            let count = read_be(prefix, 1);
            if count > MAX_FIELD_LEN / 8 || prefix.len() as u64 > 9 + 8 * count {
                None
            } else {
                Some((9 + 8 * count - prefix.len() as u64) as usize)
            }
        } else if tag == TAG_RETRIEVE {
            text_needed(prefix)
        } else if tag == TAG_FAILURE && prefix.len() == 1 {
            Some(0)
        } else {
            None
        }
    }
}

} // verus!
