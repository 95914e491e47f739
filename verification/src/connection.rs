//! The decisions of a MOO connection: request ids, pending requests,
//! request handlers, and where an incoming message goes.
use vstd::prelude::*;
use crate::error::MooError;
use crate::message::{BodyModel, HeaderSeq, MooBody, MooMessage, MooVerb};
use crate::table::{
    entry_index, entry_index_from, keys_unique, lemma_entry_index_from, lemma_table_remove_unique,
    law_table_get_after_remove, law_table_insert_keeps_keys_unique, law_table_remove_keeps_others, law_table_get_after_insert, table_get, table_insert,
    table_remove, Table,
};
use crate::protocol::{
    opt_body_model, parse_fails, parse_outcome, parse_rest, parse_yields, reads_in_turn,
    rest_after, lemma_parse_outcome_kinds, wire_of,
    MooMessageBuilder, MooParser,
};
use crate::text::{decimal, decimal_string, lemma_decimal_injective, text_eq};
use crate::buffers::bytes_contents;

verus! {

/// Where an incoming message goes.
pub enum Incoming<'a, P, H> {
    /// A REQUEST, for this handler (none: it is dropped).
    Dispatch(Option<&'a H>),
    /// A response, for this pending request (none: the id is unknown and it is
    /// dropped).
    Deliver(Option<&'a P>),
}

/// What a connection does after a receive.
pub enum RecvAction<P> {
    /// Handle these messages, in order.
    Messages(Vec<MooMessage>),
    /// The connection is down: answer each of these pending requests that
    /// it closed.
    Shutdown(Vec<P>),
}

/// The shared state of a connection: pending requests with what reaches
/// each (`P`), request handlers (`H`), the request id counter, and whether
/// the connection is up.
pub struct ConnectionState<P, H> {
    pending: Vec<(String, P)>,
    next_request_id: u64,
    handlers: Vec<(String, H)>,
    default_handler: Option<H>,
    connected: bool,
}

/// The model of a table held as a vector of (key, value).
pub open spec fn table_of<T>(v: Seq<(String, T)>) -> Table<T> {
    v.map_values(|e: (String, T)| (e.0@, e.1))
}

impl<P, H> ConnectionState<P, H> {
    /// No request id is pending twice and no name has two handlers.
    #[verifier::type_invariant]
    spec fn keys_are_unique(self) -> bool {
        &&& keys_unique(table_of(self.pending@))
        &&& keys_unique(table_of(self.handlers@))
    }

    /// Pending requests: request id and what reaches the request.
    pub closed spec fn pending(&self) -> Table<P> {
        table_of(self.pending@)
    }

    /// Registered handlers: name and handler.
    pub closed spec fn handlers(&self) -> Table<H> {
        table_of(self.handlers@)
    }

    /// The handler for requests that no registered handler takes.
    pub closed spec fn default(&self) -> Option<H> {
        self.default_handler
    }

    /// The number from which the next request id is made.
    pub closed spec fn counter(&self) -> u64 {
        self.next_request_id
    }

    /// Whether the connection is up.
    pub closed spec fn up(&self) -> bool {
        self.connected
    }

    /// A connection that is up, with no pending request, no handler, and
    /// request ids counted from 1.
    pub fn new() -> (r: Self)
        ensures
            r.pending() == Table::<P>::empty(),
            r.handlers() == Table::<H>::empty(),
            r.default() is None,
            r.counter() == 1,
            r.up(),
    {
        let r = ConnectionState {
            pending: Vec::new(),
            next_request_id: 1,
            handlers: Vec::new(),
            default_handler: None,
            connected: true,
        };
        assert(r.pending() =~= Table::<P>::empty());
        assert(r.handlers() =~= Table::<H>::empty());
        r
    }

    /// The next request id: the counter in decimal; the counter moves on by
    /// one (and wraps around at the top, as an atomic `fetch_add` does).
    pub fn next_request_id(&mut self) -> (r: String)
        ensures
            old(self).stays_down(*final(self)),
            r@ == decimal(old(self).counter() as nat),
            final(self).counter() == (if old(self).counter() == u64::MAX {
                0
            } else {
                (old(self).counter() + 1) as u64
            }),
            final(self).pending() == old(self).pending(),
            final(self).handlers() == old(self).handlers(),
            final(self).default() == old(self).default(),
            final(self).up() == old(self).up(),
    {
        proof {
            use_type_invariant(&*self);
        }
        let n = self.next_request_id;
        self.next_request_id = if n == u64::MAX {
            0
        } else {
            n + 1
        };
        decimal_string(n)
    }

    /// Check if the connection is still active.
    pub fn is_connected(&self) -> (r: bool)
        ensures
            r == self.up(),
    {
        self.connected
    }

    /// Marks the connection down. Nothing marks it up again: every other
    /// method keeps `up()` as it was, or marks it down.
    pub fn disconnect(&mut self)
        ensures
            old(self).stays_down(*final(self)),
            !final(self).up(),
            final(self).pending() == old(self).pending(),
            final(self).handlers() == old(self).handlers(),
            final(self).default() == old(self).default(),
            final(self).counter() == old(self).counter(),
    {
        proof {
            use_type_invariant(&*self);
        }
        self.connected = false;
    }

    /// Where `k` stands in `v`.
    fn position<T>(v: &Vec<(String, T)>, k: &str) -> (r: usize)
        ensures
            r == entry_index(table_of(v@), k@),
    {
        let ghost t = table_of(v@);
        let mut i: usize = 0;
        while i < v.len()
            invariant
                i <= v@.len(),
                t == table_of(v@),
                t.len() == v@.len(),
                entry_index(t, k@) == entry_index_from(t, k@, i as int),
            decreases v@.len() - i,
        {
            if text_eq(v[i].0.as_str(), k) {
                return i;
            }
            i = i + 1;
        }
        i
    }

    /// Register a handler for a specific service/method (in place of one
    /// registered before under that name).
    pub fn register_handler(&mut self, service_method: String, handler: H)
        ensures
            old(self).stays_down(*final(self)),
            final(self).handlers() == table_insert(old(self).handlers(), service_method@, handler),
            final(self).handler_model(service_method@) == Some(handler),
            forall|n: Seq<char>|
                n != service_method@ ==> #[trigger] final(self).handler_model(n)
                    == old(self).handler_model(n),
            final(self).pending() == old(self).pending(),
            final(self).default() == old(self).default(),
            final(self).counter() == old(self).counter(),
            final(self).up() == old(self).up(),
    {
        proof {
            use_type_invariant(&*self);
        }
        let ghost k = service_method@;
        let mut hs: Vec<(String, H)> = Vec::new();
        std::mem::swap(&mut hs, &mut self.handlers);
        let i = Self::position(&hs, service_method.as_str());
        if i < hs.len() {
            hs.set(i, (service_method, handler));
        } else {
            hs.push((service_method, handler));
        }
        assert(table_of(hs@) =~= table_insert(old(self).handlers(), k, handler));
        proof {
            law_table_insert_keeps_keys_unique(old(self).handlers(), k, handler);
        }
        self.handlers = hs;
        proof {
            law_handler_after_register(*old(self), *self, k, handler);
        }
    }

    /// Register a default handler for unmatched requests.
    pub fn register_default_handler(&mut self, handler: H)
        ensures
            old(self).stays_down(*final(self)),
            final(self).default() == Some(handler),
            final(self).handlers() == old(self).handlers(),
            final(self).pending() == old(self).pending(),
            final(self).counter() == old(self).counter(),
            final(self).up() == old(self).up(),
    {
        proof {
            use_type_invariant(&*self);
        }
        self.default_handler = Some(handler);
    }

    /// The handler for requests named `name`: the one registered under that
    /// name, else the default handler, if any.
    pub open spec fn handler_model(&self, name: Seq<char>) -> Option<H> {
        match table_get(self.handlers(), name) {
            Some(h) => Some(h),
            None => self.default(),
        }
    }

    /// The handler for a request named `name`: the one registered under
    /// that name, else the default handler, if any.
    pub fn handler_for(&self, name: &str) -> (r: Option<&H>)
        ensures
            match self.handler_model(name@) {
                Some(h) => r matches Some(x) && *x == h,
                None => r is None,
            },
    {
        let i = Self::position(&self.handlers, name);
        proof {
            lemma_entry_index_from(self.handlers(), name@, 0);
        }
        if i < self.handlers.len() {
            Some(&self.handlers[i].1)
        } else {
            match &self.default_handler {
                Some(h) => Some(h),
                None => None,
            }
        }
    }

    /// Records a pending request: responses with id `request_id` go to
    /// `sink`.
    pub fn add_pending(&mut self, request_id: String, sink: P)
        ensures
            old(self).stays_down(*final(self)),
            final(self).pending() == table_insert(old(self).pending(), request_id@, sink),
            final(self).handlers() == old(self).handlers(),
            final(self).default() == old(self).default(),
            final(self).counter() == old(self).counter(),
            final(self).up() == old(self).up(),
    {
        proof {
            use_type_invariant(&*self);
        }
        let ghost k = request_id@;
        let mut ps: Vec<(String, P)> = Vec::new();
        std::mem::swap(&mut ps, &mut self.pending);
        let i = Self::position(&ps, request_id.as_str());
        if i < ps.len() {
            ps.set(i, (request_id, sink));
        } else {
            ps.push((request_id, sink));
        }
        assert(table_of(ps@) =~= table_insert(old(self).pending(), k, sink));
        proof {
            law_table_insert_keeps_keys_unique(old(self).pending(), k, sink);
        }
        self.pending = ps;
    }

    /// Where responses with id `request_id` go, if that request is pending.
    pub fn pending_for(&self, request_id: &str) -> (r: Option<&P>)
        ensures
            match table_get(self.pending(), request_id@) {
                Some(p) => r matches Some(x) && *x == p,
                None => r is None,
            },
    {
        let i = Self::position(&self.pending, request_id);
        proof {
            lemma_entry_index_from(self.pending(), request_id@, 0);
        }
        if i < self.pending.len() {
            Some(&self.pending[i].1)
        } else {
            None
        }
    }

    /// Forgets the pending request `request_id`, giving back where its
    /// responses went; afterwards nothing is pending under that id.
    pub fn remove_pending(&mut self, request_id: &str) -> (r: Option<P>)
        ensures
            old(self).stays_down(*final(self)),
            r == table_get(old(self).pending(), request_id@),
            final(self).pending() == table_remove(old(self).pending(), request_id@),
            table_get(final(self).pending(), request_id@) is None,
            forall|k2: Seq<char>|
                k2 != request_id@ ==> #[trigger] table_get(final(self).pending(), k2) == table_get(
                    old(self).pending(),
                    k2,
                ),
            final(self).handlers() == old(self).handlers(),
            final(self).default() == old(self).default(),
            final(self).counter() == old(self).counter(),
            final(self).up() == old(self).up(),
    {
        proof {
            use_type_invariant(&*self);
            lemma_entry_index_from(self.pending(), request_id@, 0);
            lemma_table_remove_unique(self.pending(), request_id@);
            law_table_get_after_remove(self.pending(), request_id@);
            assert forall|k2: Seq<char>| k2 != request_id@ implies #[trigger] table_get(
                table_remove(self.pending(), request_id@),
                k2,
            ) == table_get(self.pending(), k2) by {
                law_table_remove_keeps_others(self.pending(), request_id@, k2);
            }
        }
        let mut ps: Vec<(String, P)> = Vec::new();
        std::mem::swap(&mut ps, &mut self.pending);
        let i = Self::position(&ps, request_id);
        let r = if i < ps.len() {
            let (_, p) = ps.remove(i);
            Some(p)
        } else {
            None
        };
        assert(table_of(ps@) =~= table_remove(old(self).pending(), request_id@));
        self.pending = ps;
        r
    }

    /// Forgets every pending request, giving back where their responses went,
    /// in order.
    pub fn drain_pending(&mut self) -> (r: Vec<P>)
        ensures
            old(self).stays_down(*final(self)),
            r@ == old(self).pending().map_values(|e: (Seq<char>, P)| e.1),
            final(self).pending() == Table::<P>::empty(),
            final(self).handlers() == old(self).handlers(),
            final(self).default() == old(self).default(),
            final(self).counter() == old(self).counter(),
            final(self).up() == old(self).up(),
    {
        proof {
            use_type_invariant(&*self);
        }
        let mut out: Vec<P> = Vec::new();
        let mut rest: Vec<(String, P)> = Vec::new();
        std::mem::swap(&mut rest, &mut self.pending);
        let ghost all = rest@;
        // take entries from the back, then reverse
        while rest.len() > 0
            invariant
                rest@ == all.take(rest@.len() as int),
                rest@.len() <= all.len(),
                out@.len() == all.len() - rest@.len(),
                forall|j: int| 0 <= j < out@.len() ==> #[trigger] out@[j] == all[all.len() - 1 - j].1,
            decreases rest@.len(),
        {
            let (_, p) = rest.pop().unwrap();
            out.push(p);
        }
        let mut r: Vec<P> = Vec::new();
        while out.len() > 0
            invariant
                out@.len() + r@.len() == all.len(),
                forall|j: int| 0 <= j < out@.len() ==> #[trigger] out@[j] == all[all.len() - 1 - j].1,
                forall|j: int| 0 <= j < r@.len() ==> #[trigger] r@[j] == all[j].1,
            decreases out@.len(),
        {
            let p = out.pop().unwrap();
            r.push(p);
        }
        assert(self.pending() =~= Table::<P>::empty());
        assert(r@ =~= old(self).pending().map_values(|e: (Seq<char>, P)| e.1));
        r
    }

    /// A connection that is down is still down in `after`.
    pub open spec fn stays_down(self, after: Self) -> bool {
        !self.up() ==> !after.up()
    }

    /// The connection goes down and every pending request is forgotten;
    /// gives back where their responses went, in order.
    pub open spec fn shut(self, after: Self, sinks: Seq<P>) -> bool {
        &&& sinks == self.pending().map_values(|e: (Seq<char>, P)| e.1)
        &&& after.pending() == Table::<P>::empty()
        &&& !after.up()
        &&& after.handlers() == self.handlers()
        &&& after.default() == self.default()
        &&& after.counter() == self.counter()
    }

    /// Marks the connection down and drains its pending requests.
    fn shut_down(&mut self) -> (r: RecvAction<P>)
        ensures
            r matches RecvAction::Shutdown(sinks) && old(self).shut(*final(self), sinks@),
    {
        self.disconnect();
        RecvAction::Shutdown(self.drain_pending())
    }

    /// One step of the receive loop, for what the transport gave: bytes,
    /// a close (`Ok(None)`) or an error. Bytes go to the parser; if its first
    /// parse fails the connection shuts down, else every message that it
    /// reads in turn from its buffer is to be handled, until a parse gives
    /// none (the messages read so far stand even where that last parse
    /// fails). A close or an error shuts the connection down: it goes down
    /// and hands back every pending request.
    pub fn on_recv(
        &mut self,
        parser: &mut MooParser,
        event: Result<Option<Vec<u8>>, MooError>,
    ) -> (r: RecvAction<P>)
        ensures
            old(self).stays_down(*final(self)),
            event matches Ok(Some(data)) ==> (r is Shutdown <==> parse_fails(
                old(parser)@ + data@,
            )),
            event matches Ok(Some(data)) ==> (r matches RecvAction::Shutdown(sinks)
                ==> final(parser)@ == old(parser)@ + data@ && old(self).shut(*final(self), sinks@)),
            event matches Ok(Some(data)) ==> (r matches RecvAction::Messages(ms) ==> reads_in_turn(
                old(parser)@ + data@,
                ms@,
            ) && final(parser)@ == rest_after(old(parser)@ + data@, ms@.len())),
            r matches RecvAction::Messages(ms) ==> {
                &&& !parse_yields(final(parser)@)
                &&& final(self).pending() == old(self).pending()
                &&& final(self).handlers() == old(self).handlers()
                &&& final(self).default() == old(self).default()
                &&& final(self).counter() == old(self).counter()
                &&& final(self).up() == old(self).up()
            },
            !(event matches Ok(Some(_))) ==> (r matches RecvAction::Shutdown(sinks)
                && final(parser)@ == old(parser)@ && old(self).shut(*final(self), sinks@)),
    {
        let data = match event {
            Ok(Some(d)) => d,
            _ => return self.shut_down(),
        };
        let ghost b0 = parser@ + data@;
        let first = parser.parse(data.as_slice());
        proof {
            lemma_parse_outcome_kinds(b0, first, parser@);
        }
        let m = match first {
            Err(_) => return self.shut_down(),
            Ok(None) => {
                let ms: Vec<MooMessage> = Vec::new();
                assert(rest_after(b0, 0) == b0);
                return RecvAction::Messages(ms);
            },
            Ok(Some(m)) => m,
        };
        let mut ms: Vec<MooMessage> = Vec::new();
        ms.push(m);
        proof {
            assert(rest_after(b0, 0) == b0);
            assert(rest_after(b0, 1) == parse_rest(b0));
            assert(ms@[0] == m);
        }
        let empty: Vec<u8> = Vec::new();
        loop
            invariant
                reads_in_turn(b0, ms@),
                parser@ == rest_after(b0, ms@.len()),
                empty@ == Seq::<u8>::empty(),
            ensures
                reads_in_turn(b0, ms@),
                parser@ == rest_after(b0, ms@.len()),
                !parse_yields(parser@),
            decreases parser@.len(),
        {
            let ghost before = parser@;
            let r = parser.parse(empty.as_slice());
            proof {
                assert(before + empty@ =~= before);
                lemma_parse_outcome_kinds(before, r, parser@);
            }
            match r {
                Ok(Some(m2)) => {
                    let ghost n = ms@.len();
                    let ghost old_ms = ms@;
                    ms.push(m2);
                    proof {
                        assert(rest_after(b0, (n + 1) as nat) == parse_rest(rest_after(b0, n)));
                        assert forall|i: int| 0 <= i < ms@.len() implies #[trigger] parse_outcome(
                            rest_after(b0, i as nat),
                            Ok::<Option<MooMessage>, MooError>(Some(ms@[i])),
                            rest_after(b0, (i + 1) as nat),
                        ) by {
                            if i < n {
                                assert(ms@[i] == old_ms[i]);
                            } else {
                                assert(ms@[i] == m2);
                            }
                        }
                    }
                },
                _ => {
                    break ;
                },
            }
        }
        RecvAction::Messages(ms)
    }

    /// The counter after one request id is taken.
    pub open spec fn counter_after(n: u64) -> u64 {
        if n == u64::MAX {
            0
        } else {
            (n + 1) as u64
        }
    }

    /// Starts a REQUEST named `name`: on a connection that is down it fails
    /// with `ConnectionClosed` and changes nothing; otherwise it succeeds: it
    /// takes the next request id, builds the message, and records the request
    /// as pending with `sink`. It gives back the id and the bytes to send.
    pub fn begin_request(
        &mut self,
        name: String,
        body: Option<serde_json::Value>,
        sink: P,
    ) -> (r: Result<(String, Vec<u8>), MooError>)
        ensures
            old(self).stays_down(*final(self)),
            old(self).up() <==> r is Ok,
            !old(self).up() ==> (r matches Err(MooError::ConnectionClosed) && final(self).pending()
                == old(self).pending() && final(self).counter() == old(self).counter()),
            old(self).up() ==> final(self).counter() == Self::counter_after(old(self).counter()) && {
                let id = decimal(old(self).counter() as nat);
                let bm = match body {
                    Some(v) => Some(BodyModel::Json(v)),
                    None => None,
                };
                match wire_of(MooVerb::Request, name@, id, HeaderSeq::empty(), bm) {
                    None => r matches Err(MooError::Json(_)) && final(self).pending()
                        == old(self).pending(),
                    Some(w) => r matches Ok((i, v)) && i@ == id && v@ == w && final(self).pending()
                        == table_insert(old(self).pending(), id, sink),
                }
            },
            final(self).handlers() == old(self).handlers(),
            final(self).default() == old(self).default(),
            final(self).up() == old(self).up(),
    {
        if !self.connected {
            return Err(MooError::ConnectionClosed);
        }
        let id = self.next_request_id();
        let mut builder = MooMessageBuilder::request(id.clone(), name);
        match body {
            Some(b) => {
                builder = builder.body_json(b);
            },
            None => {},
        }
        let data = match builder.build() {
            Ok(d) => d,
            Err(e) => return Err(e),
        };
        self.add_pending(id.clone(), sink);
        Ok((id, data))
    }

    /// Starts a REQUEST named `name` with a binary body: as `begin_request`,
    /// with a `Content-Type` header set to `content_type` besides the body.
    pub fn begin_raw_request(
        &mut self,
        name: String,
        body: bytes::Bytes,
        content_type: String,
        sink: P,
    ) -> (r: Result<(String, Vec<u8>), MooError>)
        ensures
            old(self).stays_down(*final(self)),
            old(self).up() <==> r is Ok,
            !old(self).up() ==> (r matches Err(MooError::ConnectionClosed) && final(self).pending()
                == old(self).pending() && final(self).counter() == old(self).counter()),
            old(self).up() ==> final(self).counter() == Self::counter_after(old(self).counter()) && {
                let id = decimal(old(self).counter() as nat);
                let hs = table_insert(HeaderSeq::empty(), "Content-Type"@, content_type@);
                let bm = Some(BodyModel::Binary(bytes_contents(body)));
                &&& wire_of(MooVerb::Request, name@, id, hs, bm) is Some
                &&& r matches Ok((i, v)) && i@ == id && v@ == wire_of(
                    MooVerb::Request,
                    name@,
                    id,
                    hs,
                    bm,
                )->0
                &&& final(self).pending() == table_insert(old(self).pending(), id, sink)
            },
            final(self).handlers() == old(self).handlers(),
            final(self).default() == old(self).default(),
            final(self).up() == old(self).up(),
    {
        if !self.connected {
            return Err(MooError::ConnectionClosed);
        }
        let id = self.next_request_id();
        let builder = MooMessageBuilder::request(id.clone(), name).header(
            crate::error::owned("Content-Type"),
            content_type,
        ).body_binary(body);
        let data = match builder.build() {
            Ok(d) => d,
            Err(e) => return Err(e),
        };
        self.add_pending(id.clone(), sink);
        Ok((id, data))
    }

    /// Where an incoming message goes: a REQUEST to the handler for its name
    /// (`handler_model`), a CONTINUE or COMPLETE to the pending request with
    /// its request id.
    pub fn route<'a>(&'a self, msg: &MooMessage) -> (r: Incoming<'a, P, H>)
        ensures
            msg.verb == MooVerb::Request ==> (r matches Incoming::Dispatch(h) && match self.handler_model(msg.name@) {
                Some(x) => h matches Some(y) && *y == x,
                None => h is None,
            }),
            msg.verb != MooVerb::Request ==> (r matches Incoming::Deliver(p) && match table_get(self.pending(), msg.request_id@) {
                Some(x) => p matches Some(y) && *y == x,
                None => p is None,
            }),
    {
        match msg.verb {
            MooVerb::Request => Incoming::Dispatch(self.handler_for(msg.name.as_str())),
            MooVerb::Continue | MooVerb::Complete => Incoming::Deliver(
                self.pending_for(msg.request_id.as_str()),
            ),
        }
    }
}

/// The bytes that answer a handler's response message: its verb, request
/// id, name and body (its headers are not sent).
pub fn response_frame(msg: MooMessage) -> (r: Result<Vec<u8>, MooError>)
    ensures
        r is Ok,
        match wire_of(msg.verb, msg.name@, msg.request_id@, HeaderSeq::empty(), opt_body_model(msg.body)) {
            Some(w) => r matches Ok(v) && v@ == w,
            None => r matches Err(MooError::Json(_)),
        },
{
    let builder = match msg.verb {
        MooVerb::Request => MooMessageBuilder::request(msg.request_id, msg.name),
        MooVerb::Continue => MooMessageBuilder::continue_msg(msg.request_id, msg.name),
        MooVerb::Complete => MooMessageBuilder::complete(msg.request_id, msg.name),
    };
    let builder = match msg.body {
        Some(MooBody::Json(v)) => builder.body_json(v),
        Some(MooBody::Binary(b)) => builder.body_binary(b),
        None => builder,
    };
    builder.build()
}

/// Law: two requests started one after the other on a connection get
/// different request ids (the counter moves on between them).
pub proof fn law_successive_request_ids_differ(n: u64)
    ensures
        decimal(n as nat) != decimal(ConnectionState::<(), ()>::counter_after(n) as nat),
{
    lemma_decimal_injective(n as nat, ConnectionState::<(), ()>::counter_after(n) as nat);
}

/// Law: requests started from distinct counter values get distinct ids.
pub proof fn law_request_ids_distinct(a: u64, b: u64)
    requires
        a != b,
    ensures
        decimal(a as nat) != decimal(b as nat),
{
    lemma_decimal_injective(a as nat, b as nat);
}

/// The counter of a new connection after `k` request ids are taken.
pub open spec fn counter_after_ids(k: nat) -> u64
    decreases k,
{
    if k == 0 {
        1
    } else {
        ConnectionState::<(), ()>::counter_after(counter_after_ids((k - 1) as nat))
    }
}

/// Law: on a new connection the request ids run 1, 2, 3, ...: the id taken
/// after `k` others is `k + 1` in decimal (for fewer than `u64::MAX` ids),
/// so no two of them are the same.
pub proof fn law_request_ids_count_up(j: nat, k: nat)
    requires
        j < k < u64::MAX,
    ensures
        counter_after_ids(k) == k + 1,
        decimal(counter_after_ids(k) as nat) == decimal(k + 1),
        decimal(counter_after_ids(j) as nat) != decimal(counter_after_ids(k) as nat),
{
    lemma_counter_after_ids(k);
    lemma_counter_after_ids(j);
    lemma_decimal_injective(j + 1, k + 1);
}

proof fn lemma_counter_after_ids(k: nat)
    requires
        k < u64::MAX,
    ensures
        counter_after_ids(k) == k + 1,
    decreases k,
{
    if k > 0 {
        lemma_counter_after_ids((k - 1) as nat);
    }
}

/// Law: a connection that goes down never comes back up. Every method that
/// changes a `ConnectionState` keeps it down once it is down (`stays_down`
/// in each one's `ensures`), so along any run of such calls, from the first
/// state that is down on, every state is down.
pub proof fn law_down_stays_down<P, H>(states: Seq<ConnectionState<P, H>>, k: int)
    requires
        0 <= k < states.len(),
        !states[k].up(),
        forall|i: int| 0 <= i < states.len() - 1 ==> #[trigger] states[i].stays_down(states[i + 1]),
    ensures
        forall|i: int| k <= i < states.len() ==> !(#[trigger] states[i].up()),
{
    assert forall|i: int| k <= i < states.len() implies !(#[trigger] states[i].up()) by {
        lemma_down_from(states, k, i);
    }
}

proof fn lemma_down_from<P, H>(states: Seq<ConnectionState<P, H>>, k: int, i: int)
    requires
        0 <= k <= i < states.len(),
        !states[k].up(),
        forall|j: int| 0 <= j < states.len() - 1 ==> #[trigger] states[j].stays_down(states[j + 1]),
    ensures
        !states[i].up(),
    decreases i - k,
{
    if i > k {
        let j = i - 1;
        lemma_down_from(states, k, j);
        assert(states[j].stays_down(states[j + 1]));
    }
}

/// Law: after a handler `h` is registered under the name `n` (the handlers
/// become `table_insert(.., n, h)`, the default handler unchanged), a
/// request named `n` goes to `h`, whatever else was registered before, and a
/// request of any other name goes where it went before.
pub proof fn law_handler_after_register<P, H>(
    before: ConnectionState<P, H>,
    after: ConnectionState<P, H>,
    n: Seq<char>,
    h: H,
)
    requires
        after.handlers() == table_insert(before.handlers(), n, h),
        after.default() == before.default(),
    ensures
        after.handler_model(n) == Some(h),
        forall|n2: Seq<char>|
            n2 != n ==> #[trigger] after.handler_model(n2) == before.handler_model(n2),
{
    law_table_get_after_insert(before.handlers(), n, h, n);
    assert forall|n2: Seq<char>| n2 != n implies #[trigger] after.handler_model(n2)
        == before.handler_model(n2) by {
        law_table_get_after_insert(before.handlers(), n, h, n2);
    }
}

} // verus!
