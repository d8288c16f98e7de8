//! The message catalogue: each message code, the fields that follow it, and a
//! message type checked against that layout before any field is read.
use vstd::prelude::*;
use crate::errors::WampError;
use crate::serialization::{items_view, WampData, WampValue};

verus! {

/// The messages a client sends or receives.
#[derive(Debug, Clone, Copy, PartialEq, Eq, Structural)]
pub enum Messages {
    MsgHello,
    MsgWelcome,
    MsgAbort,
    MsgChallenge,
    MsgAuthenticate,
    MsgGoodbye,
    MsgError,
    MsgPublish,
    MsgPublished,
    MsgSubscribe,
    MsgSubscribed,
    MsgUnsubscribe,
    MsgUnsubscribed,
    MsgEvent,
    MsgCall,
    MsgResult,
    MsgRegister,
    MsgRegistered,
    MsgUnregister,
    MsgUnregistered,
    MsgInvocation,
    MsgYield,
}

/// The fields a message may carry after its code.
#[derive(Debug, Clone, Copy, PartialEq, Eq, Structural)]
pub enum Field {
    Realm,
    Details,
    SessionId,
    Reason,
    AuthMethod,
    Extra,
    Signature,
    RequestCode,
    RequestId,
    Error,
    Args,
    Kwargs,
    Options,
    Topic,
    PublicationId,
    SubscriptionId,
    Procedure,
    RegistrationId,
}

/// The numeric code of each message.
pub open spec fn code_of(m: Messages) -> u64 {
    match m {
        Messages::MsgHello => 1,
        Messages::MsgWelcome => 2,
        Messages::MsgAbort => 3,
        Messages::MsgChallenge => 4,
        Messages::MsgAuthenticate => 5,
        Messages::MsgGoodbye => 6,
        Messages::MsgError => 8,
        Messages::MsgPublish => 16,
        Messages::MsgPublished => 17,
        Messages::MsgSubscribe => 32,
        Messages::MsgSubscribed => 33,
        Messages::MsgUnsubscribe => 34,
        Messages::MsgUnsubscribed => 35,
        Messages::MsgEvent => 36,
        Messages::MsgCall => 48,
        Messages::MsgResult => 50,
        Messages::MsgRegister => 64,
        Messages::MsgRegistered => 65,
        Messages::MsgUnregister => 66,
        Messages::MsgUnregistered => 67,
        Messages::MsgInvocation => 68,
        Messages::MsgYield => 70,
    }
}

/// The fields that follow each message's code, in order.
pub open spec fn layout(m: Messages) -> Seq<Field> {
    match m {
        Messages::MsgHello => seq![Field::Realm, Field::Details],
        Messages::MsgWelcome => seq![Field::SessionId, Field::Details],
        Messages::MsgAbort => seq![Field::Details, Field::Reason],
        Messages::MsgChallenge => seq![Field::AuthMethod, Field::Extra],
        Messages::MsgAuthenticate => seq![Field::Signature, Field::Extra],
        Messages::MsgGoodbye => seq![Field::Details, Field::Reason],
        Messages::MsgError => seq![
            Field::RequestCode,
            Field::RequestId,
            Field::Details,
            Field::Error,
            Field::Args,
            Field::Kwargs,
        ],
        Messages::MsgPublish => seq![
            Field::RequestId,
            Field::Options,
            Field::Topic,
            Field::Args,
            Field::Kwargs,
        ],
        Messages::MsgPublished => seq![Field::RequestId, Field::PublicationId],
        Messages::MsgSubscribe => seq![Field::RequestId, Field::Options, Field::Topic],
        Messages::MsgSubscribed => seq![Field::RequestId, Field::SubscriptionId],
        Messages::MsgUnsubscribe => seq![Field::RequestId, Field::SubscriptionId],
        Messages::MsgUnsubscribed => seq![Field::RequestId],
        Messages::MsgEvent => seq![
            Field::SubscriptionId,
            Field::PublicationId,
            Field::Details,
            Field::Args,
            Field::Kwargs,
        ],
        Messages::MsgCall => seq![
            Field::RequestId,
            Field::Options,
            Field::Procedure,
            Field::Args,
            Field::Kwargs,
        ],
        Messages::MsgResult => seq![Field::RequestId, Field::Details, Field::Args, Field::Kwargs],
        Messages::MsgRegister => seq![Field::RequestId, Field::Options, Field::Procedure],
        Messages::MsgRegistered => seq![Field::RequestId, Field::RegistrationId],
        Messages::MsgUnregister => seq![Field::RequestId, Field::RegistrationId],
        Messages::MsgUnregistered => seq![Field::RequestId],
        Messages::MsgInvocation => seq![
            Field::RequestId,
            Field::RegistrationId,
            Field::Details,
            Field::Args,
            Field::Kwargs,
        ],
        Messages::MsgYield => seq![Field::RequestId, Field::Options, Field::Args, Field::Kwargs],
    }
}

/// The message whose code is `c`, if any.
pub open spec fn message_of_code(c: u64) -> Option<Messages> {
    if exists|m: Messages| code_of(m) == c {
        Some(choose|m: Messages| code_of(m) == c)
    } else {
        None
    }
}

/// Whether an array of `n` elements (the code included) fits the layout of
/// `m`: the code and every field of the layout, no more and no fewer.
pub open spec fn count_fits(m: Messages, n: nat) -> bool {
    n == 1 + layout(m).len()
}

impl Messages {
    /// The message's code.
    pub fn code(&self) -> (r: u64)
        ensures
            r == code_of(*self),
    {
        match self {
            Messages::MsgHello => 1,
            Messages::MsgWelcome => 2,
            Messages::MsgAbort => 3,
            Messages::MsgChallenge => 4,
            Messages::MsgAuthenticate => 5,
            Messages::MsgGoodbye => 6,
            Messages::MsgError => 8,
            Messages::MsgPublish => 16,
            Messages::MsgPublished => 17,
            Messages::MsgSubscribe => 32,
            Messages::MsgSubscribed => 33,
            Messages::MsgUnsubscribe => 34,
            Messages::MsgUnsubscribed => 35,
            Messages::MsgEvent => 36,
            Messages::MsgCall => 48,
            Messages::MsgResult => 50,
            Messages::MsgRegister => 64,
            Messages::MsgRegistered => 65,
            Messages::MsgUnregister => 66,
            Messages::MsgUnregistered => 67,
            Messages::MsgInvocation => 68,
            Messages::MsgYield => 70,
        }
    }

    /// The message whose code is `c`, if the catalogue has one.
    pub fn from_code(c: u64) -> (r: Option<Messages>)
        ensures
            r == message_of_code(c),
    {
        let r = match c {
            1 => Some(Messages::MsgHello),
            2 => Some(Messages::MsgWelcome),
            3 => Some(Messages::MsgAbort),
            4 => Some(Messages::MsgChallenge),
            5 => Some(Messages::MsgAuthenticate),
            6 => Some(Messages::MsgGoodbye),
            8 => Some(Messages::MsgError),
            16 => Some(Messages::MsgPublish),
            17 => Some(Messages::MsgPublished),
            32 => Some(Messages::MsgSubscribe),
            33 => Some(Messages::MsgSubscribed),
            34 => Some(Messages::MsgUnsubscribe),
            35 => Some(Messages::MsgUnsubscribed),
            36 => Some(Messages::MsgEvent),
            48 => Some(Messages::MsgCall),
            50 => Some(Messages::MsgResult),
            64 => Some(Messages::MsgRegister),
            65 => Some(Messages::MsgRegistered),
            66 => Some(Messages::MsgUnregister),
            67 => Some(Messages::MsgUnregistered),
            68 => Some(Messages::MsgInvocation),
            70 => Some(Messages::MsgYield),
            _ => None,
        };
        proof {
            lemma_codes_distinct();
            if r is None {
                assert forall|m: Messages| code_of(m) != c by {
                    match m {
                        _ => {},
                    }
                }
            } else {
                let m = r->Some_0;
                assert(code_of(m) == c);
            }
        }
        r
    }

    /// The fields that follow the message's code, in order.
    pub fn fields(&self) -> (r: Vec<Field>)
        ensures
            r@ == layout(*self),
    {
        let r = match self {
            Messages::MsgHello => vec![Field::Realm, Field::Details],
            Messages::MsgWelcome => vec![Field::SessionId, Field::Details],
            Messages::MsgAbort => vec![Field::Details, Field::Reason],
            Messages::MsgChallenge => vec![Field::AuthMethod, Field::Extra],
            Messages::MsgAuthenticate => vec![Field::Signature, Field::Extra],
            Messages::MsgGoodbye => vec![Field::Details, Field::Reason],
            Messages::MsgError => vec![
                Field::RequestCode,
                Field::RequestId,
                Field::Details,
                Field::Error,
                Field::Args,
                Field::Kwargs,
            ],
            Messages::MsgPublish => vec![
                Field::RequestId,
                Field::Options,
                Field::Topic,
                Field::Args,
                Field::Kwargs,
            ],
            Messages::MsgPublished => vec![Field::RequestId, Field::PublicationId],
            Messages::MsgSubscribe => vec![Field::RequestId, Field::Options, Field::Topic],
            Messages::MsgSubscribed => vec![Field::RequestId, Field::SubscriptionId],
            Messages::MsgUnsubscribe => vec![Field::RequestId, Field::SubscriptionId],
            Messages::MsgUnsubscribed => vec![Field::RequestId],
            Messages::MsgEvent => vec![
                Field::SubscriptionId,
                Field::PublicationId,
                Field::Details,
                Field::Args,
                Field::Kwargs,
            ],
            Messages::MsgCall => vec![
                Field::RequestId,
                Field::Options,
                Field::Procedure,
                Field::Args,
                Field::Kwargs,
            ],
            Messages::MsgResult => vec![Field::RequestId, Field::Details, Field::Args, Field::Kwargs],
            Messages::MsgRegister => vec![Field::RequestId, Field::Options, Field::Procedure],
            Messages::MsgRegistered => vec![Field::RequestId, Field::RegistrationId],
            Messages::MsgUnregister => vec![Field::RequestId, Field::RegistrationId],
            Messages::MsgUnregistered => vec![Field::RequestId],
            Messages::MsgInvocation => vec![
                Field::RequestId,
                Field::RegistrationId,
                Field::Details,
                Field::Args,
                Field::Kwargs,
            ],
            Messages::MsgYield => vec![Field::RequestId, Field::Options, Field::Args, Field::Kwargs],
        };
        assert(r@ =~= layout(*self));
        r
    }
}

proof fn lemma_codes_distinct()
    ensures
        forall|a: Messages, b: Messages| code_of(a) == code_of(b) ==> a == b,
{
}


proof fn lemma_layout_distinct(m: Messages)
    ensures
        forall|i: int, j: int|
            0 <= i < layout(m).len() && 0 <= j < layout(m).len() && layout(m)[i] == layout(m)[j]
                ==> i == j,
{
}

/// What a decoded value holds as a message: its kind and all its elements
/// (the code first), when the value is an array whose first element is a known
/// code and whose length fits that message's layout.
pub open spec fn parse_message(v: WampValue) -> Result<(Messages, Seq<WampValue>), WampError> {
    match v {
        WampValue::Array(items, _) => if items.len() == 0 {
            Err(WampError::IncorrectElementCount)
        } else {
            match items[0] {
                WampValue::UInt(c) => match message_of_code(c as u64) {
                    Some(m) => if count_fits(m, items.len()) {
                        Ok((m, items))
                    } else {
                        Err(WampError::IncorrectElementCount)
                    },
                    None => Err(WampError::UnsupportedType),
                },
                _ => Err(WampError::IncorrectElementType),
            }
        },
        _ => Err(WampError::NotArray),
    }
}

/// The element that holds field `f` of a message of kind `m` with `items`, if
/// the layout has that field and the message carries it.
pub open spec fn field_of(m: Messages, items: Seq<WampValue>, f: Field) -> Option<WampValue> {
    if exists|i: int| 0 <= i < layout(m).len() && layout(m)[i] == f {
        let i = choose|i: int| 0 <= i < layout(m).len() && layout(m)[i] == f;
        if i + 1 < items.len() {
            Some(items[i + 1])
        } else {
            None
        }
    } else {
        None
    }
}

/// A message checked against the catalogue: its kind and its elements, the code first.
pub struct Message {
    kind: Messages,
    items: Vec<WampData>,
}

impl Message {
    pub closed spec fn kind_spec(&self) -> Messages {
        self.kind
    }

    /// The models of the elements, the code first.
    pub closed spec fn items_spec(&self) -> Seq<WampValue> {
        items_view(self.items@)
    }

    /// Checks `value` against the catalogue.
    pub fn parse(value: WampData) -> (r: Result<Message, WampError>)
        ensures
            match parse_message(value@) {
                Ok((m, items)) => r is Ok && r->Ok_0.kind_spec() == m && r->Ok_0.items_spec() == items,
                Err(x) => r is Err && r->Err_0 == x,
            },
    {
        let ghost model = value@;
        match value {
            WampData::Array(items, off) => {
                proof {
                    crate::serialization::lemma_array_view(items, off);
                }
                if items.len() == 0 {
                    return Err(WampError::IncorrectElementCount);
                }
                let code = match items[0].as_u64() {
                    Ok(c) => c,
                    Err(x) => {
                        return Err(x);
                    },
                };
                let kind = match Messages::from_code(code) {
                    Some(k) => k,
                    None => {
                        return Err(WampError::UnsupportedType);
                    },
                };
                let n = kind.fields().len();
                if items.len() != 1 + n {
                    return Err(WampError::IncorrectElementCount);
                }
                Ok(Message { kind, items })
            },
            _ => Err(WampError::NotArray),
        }
    }

    /// How many elements the message has, its code included.
    pub fn len(&self) -> (r: usize)
        ensures
            r == self.items_spec().len(),
    {
        self.items.len()
    }

    /// The kind of message.
    pub fn kind(&self) -> (r: Messages)
        ensures
            r == self.kind_spec(),
    {
        self.kind
    }

    /// The element that holds field `f`; `InvalidField` when the layout has no
    /// such field.
    pub fn field(&self, f: Field) -> (r: Result<&WampData, WampError>)
        ensures
            match field_of(self.kind_spec(), self.items_spec(), f) {
                Some(v) => r is Ok && r->Ok_0@ == v,
                None => r is Err && r->Err_0 == WampError::InvalidField,
            },
    {
        let fields = self.kind.fields();
        let mut i: usize = 0;
        while i < fields.len()
            invariant
                fields@ == layout(self.kind),
                i <= fields@.len(),
                forall|j: int| 0 <= j < i ==> fields@[j] != f,
            decreases fields@.len() - i,
        {
            if fields[i] == f {
                proof {
                    lemma_layout_distinct(self.kind);
                    let c = choose|k: int| 0 <= k < layout(self.kind).len() && layout(self.kind)[k] == f;
                    assert(c == i);
                }
                if i + 1 < self.items.len() {
                    return Ok(&self.items[i + 1]);
                } else {
                    return Err(WampError::InvalidField);
                }
            }
            i = i + 1;
        }
        Err(WampError::InvalidField)
    }

    /// The unsigned integer in field `f`.
    pub fn u64_field(&self, f: Field) -> (r: Result<u64, WampError>)
        ensures
            match field_of(self.kind_spec(), self.items_spec(), f) {
                Some(WampValue::UInt(u)) => r == Ok::<u64, WampError>(u as u64),
                Some(_) => r == Err::<u64, WampError>(WampError::IncorrectElementType),
                None => r == Err::<u64, WampError>(WampError::InvalidField),
            },
    {
        match self.field(f) {
            Ok(v) => v.as_u64(),
            Err(x) => Err(x),
        }
    }
}

} // verus!
