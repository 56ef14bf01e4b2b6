//! The server's per-connection logic: what one decoded request does to the
//! archive and which response it earns, and the full byte-in, byte-out
//! handling of one message. The accept loop, the worker threads and the stop
//! flag live outside this crate; each connection hands its raw request bytes
//! in and writes the returned response bytes back.

use crate::archive::{spec_search_ids, Archive};
use crate::message::{
    spec_decode_request, spec_encode_response, Request, RequestView, Response, ResponseView,
};
use vstd::prelude::*;

verus! {

/// The archive contents after one request, paired with the response the
/// request earns: `Publish` appends the document and returns its fresh id,
/// `Search` returns the ids of the matching documents in ascending order,
/// `Retrieve` returns the stored document or `Failure` for an unknown id.
pub open spec fn spec_apply(docs: Seq<Seq<u8>>, req: RequestView) -> (Seq<Seq<u8>>, ResponseView) {
    match req {
        RequestView::Publish { doc } => (
            docs.push(doc),
            ResponseView::PublishSuccess(docs.len() as u64),
        ),
        RequestView::Search { word } => (docs, ResponseView::SearchSuccess(spec_search_ids(docs, word))),
        RequestView::Retrieve { id } => (
            docs,
            if id < docs.len() {
                ResponseView::RetrieveSuccess(docs[id as int])
            } else {
                ResponseView::Failure
            },
        ),
    }
}

/// Dispatches one decoded request to the archive operation matching its
/// variant and builds the response. An archive miss on `Retrieve` is a
/// normal outcome surfaced as `Failure`, never a fault.
pub fn apply_request(archive: &mut Archive, req: Request) -> (resp: Response)
    ensures
        final(archive)@ == spec_apply(old(archive)@, req@).0,
        resp@ == spec_apply(old(archive)@, req@).1,
{
    match req {
        Request::Publish { doc } => {
            let id = archive.publish(doc);
            Response::PublishSuccess(id)
        },
        Request::Search { word } => {
            let ids = archive.search(&word);
            Response::SearchSuccess(ids)
        },
        Request::Retrieve { id } => {
            match archive.retrieve(id) {
                Some(doc) => Response::RetrieveSuccess(doc),
                None => Response::Failure,
            }
        },
    }
}

/// Serves one complete raw message: decodes the request, applies it to the
/// archive, and encodes the response. A malformed message (empty, unknown
/// tag, field cut short) leaves the archive unchanged and earns the encoded
/// `Failure` response rather than a fault; so does a response whose id list
/// or document outgrows its one-byte prefix.
pub fn handle_message(archive: &mut Archive, bytes: &[u8]) -> (out: Vec<u8>)
    ensures
        match spec_decode_request(bytes@) {
            Some(req) => {
                &&& final(archive)@ == spec_apply(old(archive)@, req).0
                &&& out@ == (if spec_apply(old(archive)@, req).1.wf() {
                    spec_encode_response(spec_apply(old(archive)@, req).1)
                } else {
                    spec_encode_response(ResponseView::Failure)
                })
            },
            None => {
                &&& final(archive)@ == old(archive)@
                &&& out@ == spec_encode_response(ResponseView::Failure)
            },
        },
{
    match Request::from_bytes(bytes) {
        Some(req) => {
            let resp = apply_request(archive, req);
            if resp.is_encodable() {
                resp.to_bytes()
            } else {
                Response::Failure.to_bytes()
            }
        },
        None => Response::Failure.to_bytes(),
    }
}

/// Sequential publishes return strictly increasing, distinct ids: the id of
/// a publish is the archive's size, and each publish grows the archive by
/// one document.
pub proof fn lemma_publish_ids_increase(docs: Seq<Seq<u8>>, d1: Seq<u8>, d2: Seq<u8>)
    requires
        docs.len() + 1 < u64::MAX,
    ensures
        spec_apply(docs, RequestView::Publish { doc: d1 }).1 == ResponseView::PublishSuccess(
            docs.len() as u64,
        ),
        spec_apply(
            spec_apply(docs, RequestView::Publish { doc: d1 }).0,
            RequestView::Publish { doc: d2 },
        ).1 == ResponseView::PublishSuccess((docs.len() + 1) as u64),
        (docs.len() as u64) < ((docs.len() + 1) as u64),
{
}

} // verus!
