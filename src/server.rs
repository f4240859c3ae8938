//! The per-connection state machine that a readiness loop drives: which
//! connections exist, which have completed the handshake, and what to do
//! with the bytes that a connection delivers.

use std::collections::HashMap;
use crate::handshake::{
    compute_accept_key, find_key, handshake_response, handshake_result, lemma_first_key_line_unique,
    HandshakeError,
};
use crate::message::{
    encode_frame, MessageFactory, MessageView, OPCODE_CONNECTION_CLOSE, OPCODE_PING, OPCODE_PONG,
};
use crate::user_message::Message;
use vstd::prelude::*;

verus! {

broadcast use vstd::std_specs::hash::group_hash_axioms;

/// The token of the listening socket; no connection gets it.
pub const SERVER_TOKEN: usize = 0;

/// The cap on the length of one incoming frame that `new` sets: 16 MiB.
pub const DEFAULT_MAX_FRAME_LEN: u64 = 0x100_0000;

/// The text of a byte sequence, each invalid UTF-8 sequence replaced by U+FFFD.
pub uninterp spec fn lossy_text_of(data: Seq<u8>) -> Seq<char>;

/// Relies on String::from_utf8_lossy: the text of `data`, which depends on
/// `data` alone.
#[verifier::external_body]
fn text_of(data: &[u8]) -> (r: String)
    ensures
        r@ == lossy_text_of(data@),
{
    String::from_utf8_lossy(data).into_owned()
}

/// Hands out connection tokens in increasing order.
struct TokenFactory {
    last: usize,
}

impl TokenFactory {
    /// The token after the last one handed out; `None` once they run out.
    fn next_token(&mut self) -> (r: Option<usize>)
        ensures
            match r {
                Some(t) => old(self).last < usize::MAX && t == old(self).last + 1 && final(self).last
                    == t,
                None => old(self).last == usize::MAX && final(self).last == old(self).last,
            },
    {
        if self.last == usize::MAX {
            return None;
        }
        self.last = self.last + 1;
        Some(self.last)
    }
}

/// What the event loop is to do after a connection delivered bytes.
pub enum ReadAction {
    /// The token names no connection (a stale event): nothing to do.
    Ignored,
    /// No complete message yet: nothing to do.
    Pending,
    /// Write this handshake response; the connection is now active.
    SendHandshake(String),
    /// The handshake was refused; the connection has been removed: close
    /// its socket and notify the handler.
    HandshakeFailed(HandshakeError),
    /// Write this Pong frame.
    SendPong(Vec<u8>),
    /// Hand this message to the handler.
    Deliver(Message),
    /// The client closed; the connection has been removed: close its socket
    /// and notify the handler.
    Close,
    /// A frame declared more bytes than the cap; the connection has been
    /// removed: close its socket and notify the handler.
    FrameTooLarge,
}

/// A `ReadAction` as plain values.
pub enum ActionView {
    Ignored,
    Pending,
    SendHandshake(Seq<char>),
    HandshakeFailed(HandshakeError),
    SendPong(Seq<u8>),
    Deliver(u8, Seq<u8>),
    Close,
    FrameTooLarge,
}

impl View for ReadAction {
    type V = ActionView;

    open spec fn view(&self) -> ActionView {
        match self {
            ReadAction::Ignored => ActionView::Ignored,
            ReadAction::Pending => ActionView::Pending,
            ReadAction::SendHandshake(s) => ActionView::SendHandshake(s@),
            ReadAction::HandshakeFailed(e) => ActionView::HandshakeFailed(*e),
            ReadAction::SendPong(b) => ActionView::SendPong(b@),
            ReadAction::Deliver(m) => ActionView::Deliver(m.message_type, m.data@),
            ReadAction::Close => ActionView::Close,
            ReadAction::FrameTooLarge => ActionView::FrameTooLarge,
        }
    }
}

/// The connection table: for each token, whether its handshake is done,
/// with the decoding state of every connection.
pub struct WebSocketServer {
    clients: HashMap<usize, bool>,
    tokens: TokenFactory,
    message_fac: MessageFactory,
    max_frame_len: u64,
}

/// `next` is `prev` without connection `t` and without anything kept for it.
pub open spec fn removed(prev: WebSocketServer, next: WebSocketServer, t: usize) -> bool {
    &&& next.connections() == prev.connections().remove(t)
    &&& next.last_token() == prev.last_token()
    &&& next.max_frame_len() == prev.max_frame_len()
    &&& prev.factory().dropped(next.factory(), t)
}

/// `next` keeps the token counter and the cap of `prev`.
pub open spec fn same_settings(prev: WebSocketServer, next: WebSocketServer) -> bool {
    next.last_token() == prev.last_token() && next.max_frame_len() == prev.max_frame_len()
}

/// `next` and `r` are what `disconnect_client(t)` makes of `prev`.
pub open spec fn disconnect_post(prev: WebSocketServer, next: WebSocketServer, t: usize, r: bool) -> bool {
    &&& r == prev.connections().contains_key(t)
    &&& removed(prev, next, t)
}

/// `next` and `r` are what `register_client` makes of `prev`.
pub open spec fn register_post(prev: WebSocketServer, next: WebSocketServer, r: Option<usize>) -> bool {
    match r {
        Some(t) => {
            &&& prev.last_token() < usize::MAX
            &&& t == prev.last_token() + 1
            &&& !prev.connections().contains_key(t)
            &&& next.connections() == prev.connections().insert(t, false)
            &&& next.last_token() == t
            &&& next.max_frame_len() == prev.max_frame_len()
            &&& next.factory() == prev.factory()
        },
        None => prev.last_token() == usize::MAX && next == prev,
    }
}

/// `next` and `a` are what `read_client_data(t, data)` makes of `prev`.
pub open spec fn read_post(
    prev: WebSocketServer,
    next: WebSocketServer,
    t: usize,
    data: Seq<u8>,
    a: ActionView,
) -> bool {
    if !prev.connections().contains_key(t) {
        a == ActionView::Ignored && next == prev
    } else if !prev.connections()[t] {
        match handshake_result(lossy_text_of(data)) {
            Ok(resp) => {
                &&& a == ActionView::SendHandshake(resp)
                &&& next.connections() == prev.connections().insert(t, true)
                &&& same_settings(prev, next)
                &&& next.factory() == prev.factory()
            },
            Err(e) => a == ActionView::HandshakeFailed(e) && removed(prev, next, t),
        }
    } else if prev.factory().exceeds_limit(data, t, prev.max_frame_len()) {
        a == ActionView::FrameTooLarge && removed(prev, next, t)
    } else {
        match prev.factory().parse_output(data, t) {
            Some(m) if m.opcode == OPCODE_CONNECTION_CLOSE => a == ActionView::Close && removed(
                prev,
                next,
                t,
            ),
            out => {
                &&& next.connections() == prev.connections()
                &&& same_settings(prev, next)
                &&& prev.factory().parse_post(next.factory(), data, t)
                &&& a == match out {
                    None => ActionView::Pending,
                    Some(m) => if m.opcode == OPCODE_PING {
                        ActionView::SendPong(encode_frame(OPCODE_PONG, Seq::empty()))
                    } else {
                        ActionView::Deliver(m.opcode, m.payload)
                    },
                }
            },
        }
    }
}

impl WebSocketServer {
    /// For each connection's token, whether its handshake is done.
    pub closed spec fn connections(&self) -> Map<usize, bool> {
        self.clients@
    }

    /// The last token handed out.
    pub closed spec fn last_token(&self) -> nat {
        self.tokens.last as nat
    }

    /// The most bytes that one incoming frame may take.
    pub closed spec fn max_frame_len(&self) -> u64 {
        self.max_frame_len
    }

    /// The decoding state of the connections.
    pub closed spec fn factory(&self) -> MessageFactory {
        self.message_fac
    }

    /// Tokens lie above the listener's and up to the last one handed out,
    /// and decoding state is kept only for connections in the table.
    pub closed spec fn wf(&self) -> bool {
        &&& self.tokens.last >= 1
        &&& forall|t: usize|
            self.clients@.contains_key(t) ==> SERVER_TOKEN < t && t <= self.tokens.last
        &&& forall|t: usize| self.message_fac.holds(t) ==> self.clients@.contains_key(t)
    }

    /// An empty table whose frames may take up to `DEFAULT_MAX_FRAME_LEN` bytes.
    pub fn new() -> (r: WebSocketServer)
        ensures
            r.wf(),
            r.connections() == Map::<usize, bool>::empty(),
            r.last_token() == 1,
            r.max_frame_len() == DEFAULT_MAX_FRAME_LEN,
    {
        Self::with_max_frame_len(DEFAULT_MAX_FRAME_LEN)
    }

    /// An empty table whose frames may take up to `max_frame_len` bytes.
    pub fn with_max_frame_len(max_frame_len: u64) -> (r: WebSocketServer)
        ensures
            r.wf(),
            r.connections() == Map::<usize, bool>::empty(),
            r.last_token() == 1,
            r.max_frame_len() == max_frame_len,
    {
        let r = WebSocketServer {
            clients: HashMap::new(),
            tokens: TokenFactory { last: 1 },
            message_fac: MessageFactory::new(),
            max_frame_len,
        };
        assert(r.clients@ =~= Map::<usize, bool>::empty());
        r
    }

    /// Whether `token` names a connection, and whether its handshake is done.
    pub fn client_state(&self, token: usize) -> (r: Option<bool>)
        ensures
            match r {
                Some(h) => self.connections().contains_key(token) && h == self.connections()[token],
                None => !self.connections().contains_key(token),
            },
    {
        match self.clients.get(&token) {
            Some(h) => Some(*h),
            None => None,
        }
    }

    /// A new connection: a fresh token, entered as awaiting its handshake.
    pub fn register_client(&mut self) -> (r: Option<usize>)
        requires
            old(self).wf(),
        ensures
            final(self).wf(),
            register_post(*old(self), *final(self), r),
    {
        match self.tokens.next_token() {
            None => None,
            Some(token) => {
                self.clients.insert(token, false);
                Some(token)
            },
        }
    }

    /// Removes connection `token` and all that is kept for it. Returns
    /// whether it was there; a second call for one token does nothing.
    pub fn disconnect_client(&mut self, token: usize) -> (r: bool)
        requires
            old(self).wf(),
        ensures
            final(self).wf(),
            disconnect_post(*old(self), *final(self), token, r),
    {
        let r = self.clients.remove(&token).is_some();
        self.message_fac.drop_client(token);
        r
    }

    /// Answers an upgrade request with the `101 Switching Protocols`
    /// response whose accept key is derived from the request's key.
    pub fn create_handshake_response(message: String) -> (r: Result<String, HandshakeError>)
        ensures
            match r {
                Ok(s) => handshake_result(message@) == Ok::<Seq<char>, HandshakeError>(s@),
                Err(e) => handshake_result(message@) == Err::<Seq<char>, HandshakeError>(e),
            },
    {
        match find_key(message.as_str()) {
            Err(e) => Err(e),
            Ok(key) => {
                proof {
                    let p = choose|p: int|
                        crate::handshake::is_first_key_line(message@, p) && key@
                            == crate::handshake::key_value(message@, p);
                    lemma_first_key_line_unique(message@, p);
                }
                let accept = compute_accept_key(key.as_str());
                Ok(handshake_response(accept.as_str()))
            },
        }
    }

    /// Takes the bytes of one read from connection `token` and decides what
    /// the event loop is to do with them.
    pub fn read_client_data(&mut self, token: usize, data: &[u8]) -> (r: ReadAction)
        requires
            old(self).wf(),
        ensures
            final(self).wf(),
            read_post(*old(self), *final(self), token, data@, r@),
    {
        let handshaked: bool = match self.clients.get(&token) {
            None => {
                return ReadAction::Ignored;
            },
            Some(h) => *h,
        };
        if !handshaked {
            let text = text_of(data);
            match Self::create_handshake_response(text) {
                Ok(resp) => {
                    self.clients.insert(token, true);
                    ReadAction::SendHandshake(resp)
                },
                Err(e) => {
                    self.clients.remove(&token);
                    self.message_fac.drop_client(token);
                    ReadAction::HandshakeFailed(e)
                },
            }
        } else {
            match self.message_fac.parse_limited(data, token, self.max_frame_len) {
                Err(_) => {
                    self.clients.remove(&token);
                    ReadAction::FrameTooLarge
                },
                Ok(None) => ReadAction::Pending,
                Ok(Some(m)) => {
                    if m.opcode == OPCODE_CONNECTION_CLOSE {
                        self.clients.remove(&token);
                        self.message_fac.drop_client(token);
                        ReadAction::Close
                    } else if m.opcode == OPCODE_PING {
                        let pong = self.message_fac.create_pong_message();
                        match pong.get_data() {
                            Ok(bytes) => ReadAction::SendPong(bytes),
                            Err(_) => {
                                proof {
                                    assert(false);
                                }
                                ReadAction::Pending
                            },
                        }
                    } else {
                        ReadAction::Deliver(Message::new(m.payload, m.opcode))
                    }
                },
            }
        }
    }
}

/// Tearing a connection down twice: the second teardown finds nothing,
/// reports so (the handler is not notified again), and leaves the table
/// as it was.
pub proof fn lemma_teardown_idempotent(
    s0: WebSocketServer,
    s1: WebSocketServer,
    s2: WebSocketServer,
    t: usize,
    r1: bool,
    r2: bool,
)
    requires
        disconnect_post(s0, s1, t, r1),
        disconnect_post(s1, s2, t, r2),
    ensures
        !r2,
        s2.connections() == s1.connections(),
        s2.last_token() == s1.last_token(),
{
    assert(s2.connections() =~= s1.connections());
}

/// A Close frame removes its connection from the table, so that a later
/// error event for the same token finds nothing to tear down.
pub proof fn lemma_close_then_teardown_is_noop(
    s0: WebSocketServer,
    s1: WebSocketServer,
    s2: WebSocketServer,
    t: usize,
    data: Seq<u8>,
    r: bool,
)
    requires
        read_post(s0, s1, t, data, ActionView::Close),
        disconnect_post(s1, s2, t, r),
    ensures
        s0.connections().contains_key(t),
        !s1.connections().contains_key(t),
        !r,
        s2.connections() == s1.connections(),
{
    match handshake_result(lossy_text_of(data)) {
        Ok(resp) => {},
        Err(e) => {},
    }
    assert(s2.connections() =~= s1.connections());
}

/// On an active connection, a complete Ping within the frame cap is
/// answered with an unmasked Pong of empty payload, is not handed to the
/// handler, and leaves the connection in place.
pub proof fn lemma_ping_answered_with_pong(
    s0: WebSocketServer,
    s1: WebSocketServer,
    t: usize,
    data: Seq<u8>,
    a: ActionView,
)
    requires
        read_post(s0, s1, t, data, a),
        s0.connections().contains_key(t),
        s0.connections()[t],
        !s0.factory().exceeds_limit(data, t, s0.max_frame_len()),
        s0.factory().parse_output(data, t) matches Some(m) && m.opcode == OPCODE_PING,
    ensures
        a == ActionView::SendPong(seq![0x8Au8, 0u8]),
        !(a is Deliver),
        s1.connections() == s0.connections(),
{
    assert(encode_frame(OPCODE_PONG, Seq::empty()) =~= seq![0x8Au8, 0u8]);
}

} // verus!
