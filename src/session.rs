//! The session engine: the authentication state machine, the request-id
//! counter, and the table that matches replies to the requests awaiting them.
//!
//! The engine decides and the caller acts: each step takes what arrived and
//! returns what is to be done (send bytes, invoke the join callback, hand a
//! reply to the slot that awaits it), so that reading, writing and waiting stay
//! with the caller.
use vstd::prelude::*;
use vstd::string::StringExecFns;
use std::collections::HashMap;
use crate::errors::WampError;
use crate::messages::{field_of, parse_message, Field, Message, Messages};
use crate::serialization::{
    decode_item, encoding, lemma_array_view, lemma_hash_view, unique_keys, WampData, WampValue,
};

verus! {

broadcast use vstd::std_specs::hash::group_hash_axioms;

/// Where the session stands.
#[derive(Debug, Clone, Copy, PartialEq, Eq, Structural)]
pub enum SessionState {
    Connecting,
    Authenticating,
    Established,
    Closed,
}

/// The parameters a session is opened with.
pub struct ConnectionInfo {
    pub url: String,
    pub realm: String,
    pub username: String,
    pub password: String,
}

/// What the caller is to do after a message arrived.
pub enum SessionAction<S> {
    /// Frame and send these bytes.
    Send(Vec<u8>),
    /// The session is established: invoke the join callback with the session
    /// id and the welcome message.
    Join(u64, Message),
    /// Hand this reply to the slot that awaits it.
    Deliver(S, Message),
    /// An event or invocation for the application's handlers.
    Dispatch(Message),
    /// The peer ended the session.
    Close,
    /// The message was dropped, for this reason.
    Ignore(WampError),
}

/// A map without entries, as a value.
pub open spec fn empty_hash() -> WampValue {
    WampValue::Hash(Seq::empty(), 0)
}

/// The details of the greeting: who authenticates, how, and in which roles.
pub open spec fn hello_details(authid: Seq<char>) -> WampValue {
    WampValue::Hash(
        seq![
            ("authid"@, WampValue::Str(authid)),
            ("agent"@, WampValue::Str("swampyer-rs"@)),
            ("authmethods"@, WampValue::Array(seq![WampValue::Str("ticket"@)], 0)),
            (
                "roles"@,
                WampValue::Hash(
                    seq![
                        ("subscriber"@, empty_hash()),
                        ("publisher"@, empty_hash()),
                        ("caller"@, empty_hash()),
                        ("callee"@, empty_hash()),
                    ],
                    0,
                ),
            ),
        ],
        0,
    )
}

proof fn lemma_array_keys_unique(items: Seq<WampValue>)
    requires
        forall|i: int| 0 <= i < items.len() ==> unique_keys(#[trigger] items[i]),
    ensures
        unique_keys(WampValue::Array(items, 0)),
{
}

proof fn lemma_hash_keys_unique(entries: Seq<(Seq<char>, WampValue)>)
    requires
        forall|i: int, j: int|
            0 <= i < j < entries.len() ==> #[trigger] entries[i].0 != #[trigger] entries[j].0,
        forall|i: int| 0 <= i < entries.len() ==> unique_keys(#[trigger] entries[i].1),
    ensures
        unique_keys(WampValue::Hash(entries, 0)),
{
}

proof fn lemma_hello_keys_unique(realm: Seq<char>, authid: Seq<char>)
    ensures
        unique_keys(hello_value(realm, authid)),
{
    reveal_strlit("authid");
    reveal_strlit("agent");
    reveal_strlit("authmethods");
    reveal_strlit("roles");
    reveal_strlit("subscriber");
    reveal_strlit("publisher");
    reveal_strlit("caller");
    reveal_strlit("callee");
    let e = empty_hash();
    lemma_hash_keys_unique(Seq::empty());
    assert(e == WampValue::Hash(Seq::empty(), 0));
    let rs = seq![("subscriber"@, e), ("publisher"@, e), ("caller"@, e), ("callee"@, e)];
    assert forall|i: int, j: int| 0 <= i < j < rs.len() implies #[trigger] rs[i].0 != #[trigger] rs[j].0 by {
        assert(rs[i].0.len() != rs[j].0.len() || rs[i].0[0] != rs[j].0[0] || rs[i].0[5] != rs[j].0[5]);
    }
    lemma_hash_keys_unique(rs);
    let methods = seq![WampValue::Str("ticket"@)];
    assert(unique_keys(methods[0]));
    lemma_array_keys_unique(methods);
    let ds = seq![
        ("authid"@, WampValue::Str(authid)),
        ("agent"@, WampValue::Str("swampyer-rs"@)),
        ("authmethods"@, WampValue::Array(methods, 0)),
        ("roles"@, WampValue::Hash(rs, 0)),
    ];
    assert forall|i: int, j: int| 0 <= i < j < ds.len() implies #[trigger] ds[i].0 != #[trigger] ds[j].0 by {
        assert(ds[i].0.len() != ds[j].0.len() || ds[i].0[0] != ds[j].0[0]);
    }
    assert(unique_keys(ds[0].1) && unique_keys(ds[1].1));
    lemma_hash_keys_unique(ds);
    assert(hello_details(authid) == WampValue::Hash(ds, 0));
    let items = seq![WampValue::UInt(1), WampValue::Str(realm), hello_details(authid)];
    assert(unique_keys(items[0]) && unique_keys(items[1]));
    lemma_array_keys_unique(items);
}

/// HELLO: the realm to join and the greeting's details.
pub open spec fn hello_value(realm: Seq<char>, authid: Seq<char>) -> WampValue {
    WampValue::Array(seq![WampValue::UInt(1), WampValue::Str(realm), hello_details(authid)], 0)
}

/// AUTHENTICATE: the ticket, and no extra details.
pub open spec fn authenticate_value(ticket: Seq<char>) -> WampValue {
    WampValue::Array(seq![WampValue::UInt(5), WampValue::Str(ticket), empty_hash()], 0)
}

/// CALL: the request id, no options, the procedure and its arguments.
pub open spec fn call_value(id: nat, procedure: Seq<char>, args: WampValue, kwargs: WampValue) -> WampValue {
    WampValue::Array(
        seq![
            WampValue::UInt(48),
            WampValue::UInt(id),
            empty_hash(),
            WampValue::Str(procedure),
            args,
            kwargs,
        ],
        0,
    )
}

/// The message that `payload` encodes.
pub open spec fn decoded_message(payload: Seq<u8>) -> Result<(Messages, Seq<WampValue>), WampError> {
    match decode_item(payload, 0) {
        Ok((v, _)) => parse_message(v),
        Err(x) => Err(x),
    }
}

/// What a reply naming `id` takes from the pending table `m`: the slot
/// recorded for `id` and the table without it, or no slot and the table as it was.
pub open spec fn take_reply<S>(m: Map<u64, S>, id: u64) -> (Option<S>, Map<u64, S>) {
    if m.contains_key(id) {
        (Some(m[id]), m.remove(id))
    } else {
        (None, m)
    }
}

/// The request id a reply names: RESULT and ERROR name one.
pub open spec fn reply_id(m: Messages, items: Seq<WampValue>) -> Option<u64> {
    if m == Messages::MsgResult || m == Messages::MsgError {
        match field_of(m, items, Field::RequestId) {
            Some(WampValue::UInt(id)) => Some(id as u64),
            _ => None,
        }
    } else {
        None
    }
}

fn text(s: &str) -> (r: WampData)
    ensures
        r@ == WampValue::Str(s@),
{
    WampData::Str(String::from_str(s))
}

fn empty_map() -> (r: WampData)
    ensures
        r@ == empty_hash(),
{
    let entries: Vec<(String, WampData)> = Vec::new();
    proof {
        lemma_hash_view(entries, 0);
        assert(crate::serialization::entries_view(entries@) =~= Seq::empty());
    }
    WampData::Hash(entries, 0)
}

/// An array of the given elements, built by hand (offset 0).
fn array_of(items: Vec<WampData>) -> (r: WampData)
    ensures
        r@ == WampValue::Array(crate::serialization::items_view(items@), 0),
{
    proof {
        lemma_array_view(items, 0);
    }
    WampData::Array(items, 0)
}

/// A map of the given entries, built by hand (offset 0).
fn hash_of(entries: Vec<(String, WampData)>) -> (r: WampData)
    ensures
        r@ == WampValue::Hash(crate::serialization::entries_view(entries@), 0),
{
    proof {
        lemma_hash_view(entries, 0);
    }
    WampData::Hash(entries, 0)
}

/// The HELLO message that opens the session.
pub fn hello_message(realm: &str, authid: &str) -> (r: WampData)
    ensures
        r@ == hello_value(realm@, authid@),
        unique_keys(r@),
{
    let mut roles: Vec<(String, WampData)> = Vec::new();
    roles.push((String::from_str("subscriber"), empty_map()));
    roles.push((String::from_str("publisher"), empty_map()));
    roles.push((String::from_str("caller"), empty_map()));
    roles.push((String::from_str("callee"), empty_map()));
    let mut methods: Vec<WampData> = Vec::new();
    methods.push(text("ticket"));
    let mut details: Vec<(String, WampData)> = Vec::new();
    details.push((String::from_str("authid"), text(authid)));
    details.push((String::from_str("agent"), text("swampyer-rs")));
    details.push((String::from_str("authmethods"), array_of(methods)));
    details.push((String::from_str("roles"), hash_of(roles)));
    let mut items: Vec<WampData> = Vec::new();
    items.push(WampData::UInt(1));
    items.push(text(realm));
    items.push(hash_of(details));
    let r = array_of(items);
    proof {
        assert(r@->Array_0[2]->Hash_0[3].1->Hash_0 =~= hello_details(authid@)->Hash_0[3].1->Hash_0);
        assert(r@->Array_0[2]->Hash_0[2].1->Array_0 =~= hello_details(authid@)->Hash_0[2].1->Array_0);
        assert(r@->Array_0[2]->Hash_0 =~= hello_details(authid@)->Hash_0);
        assert(r@->Array_0 =~= hello_value(realm@, authid@)->Array_0);
        lemma_hello_keys_unique(realm@, authid@);
    }
    r
}

/// The AUTHENTICATE message that answers a challenge with the ticket.
pub fn authenticate_message(ticket: &str) -> (r: WampData)
    ensures
        r@ == authenticate_value(ticket@),
        unique_keys(r@),
{
    let mut items: Vec<WampData> = Vec::new();
    items.push(WampData::UInt(5));
    items.push(text(ticket));
    items.push(empty_map());
    let r = array_of(items);
    assert(r@->Array_0 =~= authenticate_value(ticket@)->Array_0);
    proof {
        lemma_hash_keys_unique(Seq::empty());
        let items = authenticate_value(ticket@)->Array_0;
        assert(unique_keys(items[0]) && unique_keys(items[1]) && items[2] == empty_hash());
        lemma_array_keys_unique(items);
    }
    r
}

/// The CALL message of request `id`.
pub fn call_message(id: u64, procedure: &str, args: WampData, kwargs: WampData) -> (r: WampData)
    ensures
        r@ == call_value(id as nat, procedure@, args@, kwargs@),
        unique_keys(args@) && unique_keys(kwargs@) ==> unique_keys(r@),
{
    let ghost a = args@;
    let ghost k = kwargs@;
    let mut items: Vec<WampData> = Vec::new();
    items.push(WampData::UInt(48));
    items.push(WampData::UInt(id));
    items.push(empty_map());
    items.push(text(procedure));
    items.push(args);
    items.push(kwargs);
    let r = array_of(items);
    assert(r@->Array_0 =~= call_value(id as nat, procedure@, a, k)->Array_0);
    proof {
        if unique_keys(a) && unique_keys(k) {
            lemma_hash_keys_unique(Seq::empty());
            let items = call_value(id as nat, procedure@, a, k)->Array_0;
            assert(unique_keys(items[0]) && unique_keys(items[1]) && items[2] == empty_hash());
            assert(unique_keys(items[3]) && items[4] == a && items[5] == k);
            lemma_array_keys_unique(items);
        }
    }
    r
}

/// One session: its parameters, where it stands, the last request id issued,
/// and the slots of the requests that await a reply.
pub struct Session<S> {
    info: ConnectionInfo,
    state: SessionState,
    next_id: u64,
    pending: HashMap<u64, S>,
}

impl<S> Session<S> {
    pub closed spec fn phase(&self) -> SessionState {
        self.state
    }

    /// The last request id issued (0 before the first).
    pub closed spec fn issued(&self) -> nat {
        self.next_id as nat
    }

    /// The requests that await a reply, by id.
    pub closed spec fn pending_map(&self) -> Map<u64, S> {
        self.pending@
    }

    pub closed spec fn realm(&self) -> Seq<char> {
        self.info.realm@
    }

    pub closed spec fn principal(&self) -> Seq<char> {
        self.info.username@
    }

    pub closed spec fn credential(&self) -> Seq<char> {
        self.info.password@
    }

    /// Every pending id was issued by this session.
    pub open spec fn wf(&self) -> bool {
        forall|id: u64| #[trigger] self.pending_map().contains_key(id) ==> 1 <= id <= self.issued()
    }

    /// A table that only lost entries or gained the id last issued, under a
    /// counter that did not go back, still holds only issued ids.
    proof fn lemma_wf_kept(before: &Self, after: &Self)
        requires
            before.wf(),
            after.issued() >= before.issued(),
            forall|k: u64|
                #[trigger] after.pending_map().contains_key(k) ==> before.pending_map().contains_key(k)
                    || (k == after.issued() && k >= 1),
        ensures
            after.wf(),
    {
        assert forall|k: u64| #[trigger] after.pending_map().contains_key(k) implies 1 <= k
            <= after.issued() by {
            if before.pending_map().contains_key(k) {
            }
        }
    }

    /// A session about to greet the peer: no id issued, nothing pending.
    pub fn new(info: ConnectionInfo) -> (r: Session<S>)
        ensures
            r.wf(),
            r.phase() == SessionState::Connecting,
            r.issued() == 0,
            r.pending_map() == Map::<u64, S>::empty(),
            r.realm() == info.realm@,
            r.principal() == info.username@,
            r.credential() == info.password@,
    {
        Session { info, state: SessionState::Connecting, next_id: 0, pending: HashMap::new() }
    }

    /// Where the session stands.
    pub fn state(&self) -> (r: SessionState)
        ensures
            r == self.phase(),
    {
        self.state
    }

    /// Starts authentication: gives the encoded HELLO to send and moves to
    /// `Authenticating`; only a session that is still connecting may start.
    pub fn authenticate(&mut self) -> (r: Result<Vec<u8>, WampError>)
        ensures
            old(self).phase() == SessionState::Connecting ==> r is Ok && r->Ok_0@ == encoding(
                hello_value(old(self).realm(), old(self).principal()),
            ) && final(self).phase() == SessionState::Authenticating && final(self).pending_map()
                == old(self).pending_map() && final(self).issued() == old(self).issued()
                && final(self).credential() == old(self).credential() && final(self).realm()
                == old(self).realm() && final(self).principal() == old(self).principal(),
            old(self).phase() != SessionState::Connecting ==> r == Err::<Vec<u8>, WampError>(
                WampError::ConnectionFailure,
            ) && *final(self) == *old(self),
    {
        if self.state != SessionState::Connecting {
            return Err(WampError::ConnectionFailure);
        }
        let hello = hello_message(self.info.realm.as_str(), self.info.username.as_str());
        self.state = SessionState::Authenticating;
        Ok(hello.to_vec())
    }

    /// Issues the next request id: one more than the last, never reused;
    /// `None` once the ids are exhausted.
    pub fn next_request_id(&mut self) -> (r: Option<u64>)
        requires
            old(self).wf(),
        ensures
            final(self).wf(),
            old(self).issued() < u64::MAX ==> r == Some(
                (old(self).issued() + 1) as u64,
            ) && final(self).issued() == old(self).issued() + 1 && final(self).pending_map()
                == old(self).pending_map() && final(self).phase() == old(self).phase()
                && final(self).credential() == old(self).credential(),
            old(self).issued() >= u64::MAX ==> r is None && *final(self) == *old(self),
    {
        if self.next_id == u64::MAX {
            return None;
        }
        self.next_id = self.next_id + 1;
        proof {
            Self::lemma_wf_kept(&*old(self), &*self);
        }
        Some(self.next_id)
    }

    /// Issues a fresh request id and records `slot` as the one awaiting its
    /// reply; `None` once the ids are exhausted.
    pub fn request_response(&mut self, slot: S) -> (r: Option<u64>)
        requires
            old(self).wf(),
        ensures
            final(self).wf(),
            old(self).issued() < u64::MAX ==> r == Some((old(self).issued() + 1) as u64)
                && !old(self).pending_map().contains_key((old(self).issued() + 1) as u64)
                && final(self).pending_map() == old(self).pending_map().insert(
                (old(self).issued() + 1) as u64,
                slot,
            ) && final(self).issued() == old(self).issued() + 1 && final(self).phase() == old(self).phase() && final(self).credential() == old(self).credential(),
            old(self).issued() >= u64::MAX ==> r is None && *final(self) == *old(self),
    {
        if self.next_id == u64::MAX {
            return None;
        }
        self.next_id = self.next_id + 1;
        let id = self.next_id;
        self.pending.insert(id, slot);
        proof {
            Self::lemma_wf_kept(&*old(self), &*self);
        }
        Some(id)
    }

    /// Starts a call: issues a request id, records `slot` for its reply, and
    /// gives the id and the encoded CALL to send. Only an established session
    /// with ids left may call; otherwise `ConnectionFailure`.
    pub fn call(&mut self, slot: S, procedure: &str, args: WampData, kwargs: WampData) -> (r: Result<
        (u64, Vec<u8>),
        WampError,
    >)
        requires
            old(self).wf(),
            unique_keys(args@),
            unique_keys(kwargs@),
        ensures
            final(self).wf(),
            old(self).phase() == SessionState::Established && old(self).issued() < u64::MAX ==> r is Ok
                && r->Ok_0.0 == old(self).issued() + 1 && !old(self).pending_map().contains_key(
                r->Ok_0.0,
            ) && r->Ok_0.1@ == encoding(
                call_value((old(self).issued() + 1) as nat, procedure@, args@, kwargs@),
            ) && final(self).pending_map() == old(self).pending_map().insert(r->Ok_0.0, slot)
                && final(self).issued() == old(self).issued() + 1 && final(self).phase() == old(self).phase(),
            !(old(self).phase() == SessionState::Established && old(self).issued() < u64::MAX) ==> r
                == Err::<(u64, Vec<u8>), WampError>(WampError::ConnectionFailure) && *final(self)
                == *old(self),
    {
        if self.state != SessionState::Established || self.next_id == u64::MAX {
            return Err(WampError::ConnectionFailure);
        }
        let ghost a = args@;
        let ghost k = kwargs@;
        self.next_id = self.next_id + 1;
        let id = self.next_id;
        self.pending.insert(id, slot);
        proof {
            Self::lemma_wf_kept(&*old(self), &*self);
        }
        let message = call_message(id, procedure, args, kwargs);
        Ok((id, message.to_vec()))
    }

    /// Routes a reply to the request it names: removes that request's entry
    /// and gives its slot with the reply. A reply for no pending request is
    /// `UnknownRequestID`; a message that is no reply, or names no id, is
    /// `IncorrectElementType`. Either way nothing changes.
    pub fn submit_response(&mut self, message: Message) -> (r: Result<(S, Message), WampError>)
        requires
            old(self).wf(),
        ensures
            final(self).wf(),
            match reply_id(message.kind_spec(), message.items_spec()) {
                Some(id) => match take_reply(old(self).pending_map(), id) {
                    (Some(slot), rest) => r is Ok && r->Ok_0.0 == slot && r->Ok_0.1.kind_spec()
                        == message.kind_spec() && r->Ok_0.1.items_spec() == message.items_spec()
                        && final(self).pending_map() == rest && final(self).issued() == old(self).issued()
                        && final(self).phase() == old(self).phase() && final(self).credential() == old(self).credential(),
                    (None, _) => r == Err::<(S, Message), WampError>(WampError::UnknownRequestID)
                        && *final(self) == *old(self),
                },
                None => r == Err::<(S, Message), WampError>(WampError::IncorrectElementType) && *final(self) == *old(self),
            },
    {
        let kind = message.kind();
        if kind != Messages::MsgResult && kind != Messages::MsgError {
            return Err(WampError::IncorrectElementType);
        }
        let id = match message.u64_field(Field::RequestId) {
            Ok(id) => id,
            Err(_) => {
                return Err(WampError::IncorrectElementType);
            },
        };
        if !self.pending.contains_key(&id) {
            return Err(WampError::UnknownRequestID);
        }
        let removed = self.pending.remove(&id);
        proof {
            Self::lemma_wf_kept(&*old(self), &*self);
        }
        match removed {
            Some(slot) => Ok((slot, message)),
            None => Err(WampError::UnknownRequestID),
        }
    }

    /// Gives up on request `id` when its deadline passed: removes its entry and
    /// gives its slot, if it still awaited a reply; a reply arriving later is
    /// then `UnknownRequestID`.
    pub fn expire(&mut self, id: u64) -> (r: Option<S>)
        requires
            old(self).wf(),
        ensures
            final(self).wf(),
            (r, final(self).pending_map()) == take_reply(old(self).pending_map(), id),
            final(self).pending_map() == old(self).pending_map().remove(id),
            old(self).pending_map().contains_key(id) ==> r == Some(old(self).pending_map()[id]),
            !old(self).pending_map().contains_key(id) ==> r is None,
            final(self).issued() == old(self).issued(),
            final(self).phase() == old(self).phase(),
            final(self).credential() == old(self).credential(),
    {
        let r = self.pending.remove(&id);
        proof {
            Self::lemma_wf_kept(&*old(self), &*self);
        }
        r
    }

    /// Ends the session, after a transport failure or by the application.
    pub fn close(&mut self)
        requires
            old(self).wf(),
        ensures
            final(self).wf(),
            final(self).phase() == SessionState::Closed,
            final(self).pending_map() == old(self).pending_map(),
            final(self).issued() == old(self).issued(),
            final(self).credential() == old(self).credential(),
            final(self).realm() == old(self).realm(),
            final(self).principal() == old(self).principal(),
    {
        self.state = SessionState::Closed;
        proof {
            Self::lemma_wf_kept(&*old(self), &*self);
        }
    }

    /// Decides what to do with a message that arrived:
    /// - one that does not decode or fit the catalogue is dropped with the error;
    /// - after the session closed, everything is dropped;
    /// - ABORT or GOODBYE closes the session;
    /// - while authenticating, CHALLENGE is answered with AUTHENTICATE carrying
    ///   the credential, and WELCOME establishes the session and asks for the
    ///   join callback with the session id;
    /// - once established, RESULT and ERROR go to the request they name (see
    ///   `submit_response`), EVENT and INVOCATION go to the application;
    /// - anything else is dropped as `UnsupportedType`.
    pub fn handle_message(&mut self, payload: &[u8]) -> (r: SessionAction<S>)
        requires
            old(self).wf(),
        ensures
            final(self).wf(),
            final(self).issued() == old(self).issued(),
            final(self).credential() == old(self).credential(),
            match decoded_message(payload@) {
                Err(x) => r matches SessionAction::Ignore(e) && e == x && *final(self) == *old(self),
                Ok((m, items)) => if old(self).phase() == SessionState::Closed {
                    r matches SessionAction::Ignore(e) && e == WampError::ConnectionFailure
                        && *final(self) == *old(self)
                } else if m == Messages::MsgAbort || m == Messages::MsgGoodbye {
                    r is Close && final(self).phase() == SessionState::Closed && final(self).pending_map()
                        == old(self).pending_map()
                } else if old(self).phase() == SessionState::Authenticating && m
                    == Messages::MsgChallenge {
                    r matches SessionAction::Send(b) && b@ == encoding(
                        authenticate_value(old(self).credential()),
                    ) && *final(self) == *old(self)
                } else if old(self).phase() == SessionState::Authenticating && m
                    == Messages::MsgWelcome {
                    match field_of(m, items, Field::SessionId) {
                        Some(WampValue::UInt(sid)) => r matches SessionAction::Join(id, msg) && id
                            == sid as u64 && msg.kind_spec() == m && msg.items_spec() == items
                            && final(self).phase() == SessionState::Established && final(self).pending_map()
                            == old(self).pending_map(),
                        _ => r matches SessionAction::Ignore(e) && e == WampError::IncorrectElementType
                            && *final(self) == *old(self),
                    }
                } else if old(self).phase() == SessionState::Established && (m == Messages::MsgResult
                    || m == Messages::MsgError) {
                    match reply_id(m, items) {
                        Some(id) => if old(self).pending_map().contains_key(id) {
                            r matches SessionAction::Deliver(slot, msg) && slot == old(self).pending_map()[id]
                                && msg.kind_spec() == m && msg.items_spec() == items && final(self).pending_map()
                                == old(self).pending_map().remove(id) && final(self).phase() == old(self).phase()
                        } else {
                            r matches SessionAction::Ignore(e) && e == WampError::UnknownRequestID
                                && *final(self) == *old(self)
                        },
                        None => r matches SessionAction::Ignore(e) && e == WampError::IncorrectElementType
                            && *final(self) == *old(self),
                    }
                } else if old(self).phase() == SessionState::Established && (m == Messages::MsgEvent
                    || m == Messages::MsgInvocation) {
                    r matches SessionAction::Dispatch(msg) && msg.kind_spec() == m && msg.items_spec()
                        == items && *final(self) == *old(self)
                } else {
                    r matches SessionAction::Ignore(e) && e == WampError::UnsupportedType && *final(self)
                        == *old(self)
                },
            },
    {
        let value = match WampData::from_slice(payload) {
            Ok(v) => v,
            Err(x) => {
                return SessionAction::Ignore(x);
            },
        };
        let message = match Message::parse(value) {
            Ok(m) => m,
            Err(x) => {
                return SessionAction::Ignore(x);
            },
        };
        if self.state == SessionState::Closed {
            return SessionAction::Ignore(WampError::ConnectionFailure);
        }
        let kind = message.kind();
        if kind == Messages::MsgAbort || kind == Messages::MsgGoodbye {
            self.close();
            return SessionAction::Close;
        }
        if self.state == SessionState::Authenticating {
            if kind == Messages::MsgChallenge {
                let reply = authenticate_message(self.info.password.as_str());
                return SessionAction::Send(reply.to_vec());
            }
            if kind == Messages::MsgWelcome {
                return match message.u64_field(Field::SessionId) {
                    Ok(sid) => {
                        self.state = SessionState::Established;
                        proof {
                            Self::lemma_wf_kept(&*old(self), &*self);
                        }
                        SessionAction::Join(sid, message)
                    },
                    Err(_) => SessionAction::Ignore(WampError::IncorrectElementType),
                };
            }
        }
        if self.state == SessionState::Established {
            if kind == Messages::MsgResult || kind == Messages::MsgError {
                return match self.submit_response(message) {
                    Ok((slot, msg)) => SessionAction::Deliver(slot, msg),
                    Err(x) => SessionAction::Ignore(x),
                };
            }
            if kind == Messages::MsgEvent || kind == Messages::MsgInvocation {
                return SessionAction::Dispatch(message);
            }
        }
        SessionAction::Ignore(WampError::UnsupportedType)
    }
}


/// The slots that replies naming `ids`, taken one after the other by
/// `submit_response`, reach from the pending table `m` (see `take_reply`).
pub open spec fn routed<S>(m: Map<u64, S>, ids: Seq<u64>) -> Seq<Option<S>>
    decreases ids.len(),
{
    if ids.len() == 0 {
        Seq::empty()
    } else {
        let (slot, rest) = take_reply(m, ids[0]);
        seq![slot] + routed(rest, ids.subrange(1, ids.len() as int))
    }
}

/// The pending table left after replies naming `ids` were taken one after the
/// other by `submit_response`.
pub open spec fn left_pending<S>(m: Map<u64, S>, ids: Seq<u64>) -> Map<u64, S>
    decreases ids.len(),
{
    if ids.len() == 0 {
        m
    } else {
        left_pending(take_reply(m, ids[0]).1, ids.subrange(1, ids.len() as int))
    }
}

/// Replies to distinct pending requests, arriving in any order and each taken
/// by `submit_response`, each reach exactly the slot of the request they
/// name; afterwards none of those requests is pending, and every other
/// request is pending with its slot as before.
pub proof fn lemma_reply_correlation<S>(m: Map<u64, S>, ids: Seq<u64>)
    requires
        ids.no_duplicates(),
        forall|i: int| 0 <= i < ids.len() ==> m.contains_key(#[trigger] ids[i]),
    ensures
        routed(m, ids).len() == ids.len(),
        forall|i: int| 0 <= i < ids.len() ==> #[trigger] routed(m, ids)[i] == Some(m[ids[i]]),
        forall|i: int| 0 <= i < ids.len() ==> !left_pending(m, ids).contains_key(#[trigger] ids[i]),
        forall|k: u64|
            !ids.contains(k) ==> (#[trigger] left_pending(m, ids).contains_key(k) == m.contains_key(k)
                && (m.contains_key(k) ==> left_pending(m, ids)[k] == m[k])),
    decreases ids.len(),
{
    if ids.len() > 0 {
        let id = ids[0];
        let rest = ids.subrange(1, ids.len() as int);
        let m2 = m.remove(id);
        assert(take_reply(m, id) == (Some(m[id]), m2));
        assert forall|i: int| 0 <= i < rest.len() implies m2.contains_key(#[trigger] rest[i]) by {
            assert(rest[i] == ids[i + 1]);
            assert(ids[i + 1] != ids[0]);
        }
        assert(rest.no_duplicates()) by {
            assert forall|i: int, j: int| 0 <= i < rest.len() && 0 <= j < rest.len() && i != j implies rest[i] != rest[j] by {
                assert(rest[i] == ids[i + 1] && rest[j] == ids[j + 1]);
            }
        }
        lemma_reply_correlation(m2, rest);
        assert forall|i: int| 0 <= i < ids.len() implies #[trigger] routed(m, ids)[i] == Some(m[ids[i]]) by {
            if i > 0 {
                assert(routed(m, ids)[i] == routed(m2, rest)[i - 1]);
                assert(rest[i - 1] == ids[i]);
                assert(ids[i] != id);
            }
        }
        assert forall|i: int| 0 <= i < ids.len() implies !left_pending(m, ids).contains_key(#[trigger] ids[i]) by {
            if i == 0 {
                if left_pending(m2, rest).contains_key(id) {
                    assert(!rest.contains(id)) by {
                        if rest.contains(id) {
                            let j = choose|j: int| 0 <= j < rest.len() && rest[j] == id;
                            assert(rest[j] == ids[j + 1]);
                        }
                    }
                }
            } else {
                assert(rest[i - 1] == ids[i]);
            }
        }
        assert forall|k: u64| !ids.contains(k) implies (#[trigger] left_pending(m, ids).contains_key(k)
            == m.contains_key(k) && (m.contains_key(k) ==> left_pending(m, ids)[k] == m[k])) by {
            assert(ids[0] == id);
            assert(k != id);
            assert(!rest.contains(k)) by {
                if rest.contains(k) {
                    let j = choose|j: int| 0 <= j < rest.len() && rest[j] == k;
                    assert(ids[j + 1] == k);
                    assert(ids.contains(k));
                }
            }
            assert(left_pending(m, ids) == left_pending(m2, rest));
            assert(m2.contains_key(k) == m.contains_key(k));
        }
    }
}

/// A request whose deadline passed (its entry removed by `expire`) is answered
/// by no late reply, and no request is answered twice: a second reply naming
/// the same id reaches no slot.
pub proof fn lemma_no_late_or_second_delivery<S>(m: Map<u64, S>, id: u64)
    ensures
        take_reply(take_reply(m, id).1, id).0 is None,
        routed(m, seq![id, id])[1] == None::<S>,
{
    reveal_with_fuel(routed, 3);
    assert(seq![id, id].subrange(1, 2) =~= seq![id]);
    assert(seq![id].subrange(1, 1) =~= Seq::<u64>::empty());
    assert(!m.remove(id).contains_key(id));
    assert(!take_reply(m, id).1.contains_key(id));
}

} // verus!
