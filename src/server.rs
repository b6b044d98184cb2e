//! The server's state and the work done for one connection: decode one
//! request frame, serve it from the archive, encode the response.
use crate::database::document_at;
use crate::database::indexed;
use crate::database::lower_of;
use crate::database::Database;
use crate::message::is_request_frame;
use crate::message::request_of;
use crate::message::response_bytes;
use crate::message::Request;
use crate::message::RequestModel;
use crate::message::Response;
use crate::message::ResponseModel;
use vstd::prelude::*;

verus! {

/// The response that an archive in state `db` gives to `req`.
pub open spec fn response_for(db: Database, req: RequestModel) -> ResponseModel {
    match req {
        RequestModel::Publish(_) => ResponseModel::PublishSuccess(db.documents().len() as usize),
        RequestModel::Search(w) => ResponseModel::SearchSuccess(db.ids(lower_of(w))),
        RequestModel::Retrieve(id) => match document_at(db.documents(), id as nat) {
            Some(d) => ResponseModel::RetrieveSuccess(d),
            None => ResponseModel::Failure,
        },
    }
}

/// The archive `after` is what serving `req` leaves of `before`: a publish
/// appends the document and indexes it, a search or a retrieval changes
/// nothing.
pub open spec fn served(before: Database, after: Database, req: RequestModel) -> bool {
    match req {
        RequestModel::Publish(d) => {
            &&& after.documents() == before.documents().push(d)
            &&& forall|w: Seq<char>| #[trigger] after.ids(w) == indexed(
                before.ids(w),
                w,
                d,
                before.documents().len() as usize,
            )
        },
        _ => after == before,
    }
}

/// Serves one request from the archive: a publish is answered with the new
/// identifier, a search with the identifiers indexed under the word, a
/// retrieval with the document or, where there is none under that
/// identifier, with a failure.
pub fn process_message(database: &mut Database, request: Request) -> (r: Response)
    requires
        old(database).wf(),
    ensures
        final(database).wf(),
        r@ == response_for(*old(database), request@),
        served(*old(database), *final(database), request@),
{
    match request {
        Request::Publish { doc } => Response::PublishSuccess(database.publish(doc)),
        Request::Search { word } => Response::SearchSuccess(database.search(word.as_str())),
        Request::Retrieve { id } => match database.retrieve(id) {
            Some(doc) => Response::RetrieveSuccess(doc),
            None => Response::Failure,
        },
    }
}

/// The state of a server: the archive and the flag that asks the accept
/// loop to stop.
pub struct ServerState {
    database: Database,
    is_stopped: bool,
}

impl ServerState {
    /// The archive that requests are served from.
    pub closed spec fn archive(&self) -> Database {
        self.database
    }

    /// Whether a stop has been asked for.
    pub closed spec fn stopped(&self) -> bool {
        self.is_stopped
    }

    pub closed spec fn wf(&self) -> bool {
        self.database.wf()
    }

    /// A fresh empty archive, not stopped.
    pub fn new() -> (r: Self)
        ensures
            r.wf(),
            !r.stopped(),
            r.archive().documents() == Seq::<Seq<char>>::empty(),
            forall|w: Seq<char>| #[trigger] r.archive().ids(w) == Seq::<usize>::empty(),
    {
        ServerState { database: Database::new(), is_stopped: false }
    }

    /// The archive that requests are served from.
    pub fn database(&self) -> (r: &Database)
        ensures
            *r == self.archive(),
    {
        &self.database
    }

    /// Whether a stop has been asked for.
    pub fn is_stopped(&self) -> (r: bool)
        ensures
            r == self.stopped(),
    {
        self.is_stopped
    }

    /// Asks the accept loop to stop; the archive is left as it is.
    pub fn stop(&mut self)
        ensures
            final(self).stopped(),
            final(self).archive() == old(self).archive(),
    {
        self.is_stopped = true;
    }

    /// Serves one connection's bytes: `None`, with the archive untouched,
    /// where they are not exactly one well-formed request frame, so that no
    /// request is processed and the connection is closed; else the encoded
    /// response to the decoded request.
    pub fn handle_request(&mut self, bytes: &[u8]) -> (r: Option<Vec<u8>>)
        requires
            old(self).wf(),
        ensures
            final(self).wf(),
            final(self).stopped() == old(self).stopped(),
            r is Some <==> is_request_frame(bytes@),
            !is_request_frame(bytes@) ==> final(self).archive() == old(self).archive(),
            r matches Some(out) ==> out@ == response_bytes(
                response_for(old(self).archive(), request_of(bytes@)),
            ) && served(old(self).archive(), final(self).archive(), request_of(bytes@)),
    {
        match Request::from_bytes(bytes) {
            Some(request) => Some(process_message(&mut self.database, request).to_bytes()),
            None => None,
        }
    }
}

/// A document archive server.
pub struct Server {
    state: ServerState,
}

impl Server {
    /// The server's state.
    pub closed spec fn state_view(&self) -> ServerState {
        self.state
    }

    pub closed spec fn wf(&self) -> bool {
        self.state.wf()
    }

    /// A server over a fresh empty archive, not stopped.
    pub fn new() -> (r: Self)
        ensures
            r.wf(),
            !r.state_view().stopped(),
            r.state_view().archive().documents() == Seq::<Seq<char>>::empty(),
            forall|w: Seq<char>| #[trigger] r.state_view().archive().ids(w) == Seq::<usize>::empty(),
    {
        Server { state: ServerState::new() }
    }

    /// The server's state.
    pub fn state(&self) -> (r: &ServerState)
        ensures
            *r == self.state_view(),
    {
        &self.state
    }

    /// Whether a stop has been asked for.
    pub fn is_stopped(&self) -> (r: bool)
        ensures
            r == self.state_view().stopped(),
    {
        self.state.is_stopped()
    }

    /// Asks the accept loop to stop; it does so once it next wakes up. The
    /// archive is left as it is.
    pub fn stop(&mut self)
        ensures
            final(self).state_view().stopped(),
            final(self).state_view().archive() == old(self).state_view().archive(),
            final(self).wf() == old(self).wf(),
    {
        self.state.stop();
    }

    /// Serves one connection's bytes, as `ServerState::handle_request` does.
    pub fn handle_request(&mut self, bytes: &[u8]) -> (r: Option<Vec<u8>>)
        requires
            old(self).wf(),
        ensures
            final(self).wf(),
            final(self).state_view().stopped() == old(self).state_view().stopped(),
            r is Some <==> is_request_frame(bytes@),
            !is_request_frame(bytes@) ==> final(self).state_view().archive() == old(
                self,
            ).state_view().archive(),
            r matches Some(out) ==> out@ == response_bytes(
                response_for(old(self).state_view().archive(), request_of(bytes@)),
            ) && served(
                old(self).state_view().archive(),
                final(self).state_view().archive(),
                request_of(bytes@),
            ),
    {
        self.state.handle_request(bytes)
    }
}

} // verus!
