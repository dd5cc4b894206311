//! The packet dispatcher: routes decoded packets to registered payload
//! consumers by packet type, and gates sending on an active connection.
//! Consumers themselves live with the caller; the dispatcher only decides
//! which consumer, if any, a packet type goes to.  Unknown types fall to a
//! default sink rather than failing, so unknown payloads stay forward
//! compatible.
use vstd::prelude::*;

use crate::packet::{encode, record_chars, Packet};
use crate::registry::ConnectionState;

verus! {

/// Index of the first consumer registered for the given type, or -1.
pub open spec fn spec_route(consumers: Seq<String>, typ: Seq<char>) -> int
    decreases consumers.len(),
{
    if consumers.len() == 0 {
        -1
    } else if consumers[0]@ == typ {
        0
    } else {
        let r = spec_route(consumers.drop_first(), typ);
        if r < 0 {
            -1
        } else {
            r + 1
        }
    }
}

/// Registered packet-type consumers, in registration order.
#[derive(Debug, PartialEq, Eq)]
pub struct Dispatcher {
    pub consumers: Vec<String>,
}

/// Refusal to send on a connection that is not active.
#[derive(Debug, PartialEq, Eq, Clone, Copy)]
pub enum SendError {
    NotConnected,
}

impl Dispatcher {
    pub fn new() -> (r: Dispatcher)
        ensures
            r.consumers@.len() == 0,
    {
        Dispatcher { consumers: Vec::new() }
    }

    /// Associates a packet type with the consumer registered under it; the
    /// caller keeps the consumers themselves, in the same order.
    pub fn register_consumer(&mut self, typ: String)
        ensures
            final(self).consumers@ == old(self).consumers@.push(typ),
    {
        self.consumers.push(typ);
    }

    /// The consumer a packet of this type goes to, or `None` for the
    /// default sink.
    pub fn route(&self, typ: &String) -> (r: Option<usize>)
        ensures
            r matches Some(i) ==> i < self.consumers@.len() && spec_route(self.consumers@, typ@)
                == i as int && self.consumers@[i as int]@ == typ@,
            r is None ==> spec_route(self.consumers@, typ@) < 0 && forall|j: int|
                0 <= j < self.consumers@.len() ==> self.consumers@[j]@ != typ@,
    {
        proof {
            lemma_spec_route(self.consumers@, typ@);
        }
        let mut i: usize = 0;
        while i < self.consumers.len()
            invariant
                0 <= i <= self.consumers@.len(),
                forall|j: int| 0 <= j < i ==> (#[trigger] self.consumers@[j])@ != typ@,
                spec_route(self.consumers@, typ@) < self.consumers@.len(),
                spec_route(self.consumers@, typ@) >= 0 ==> self.consumers@[spec_route(
                    self.consumers@,
                    typ@,
                )]@ == typ@,
                spec_route(self.consumers@, typ@) < 0 ==> forall|j: int|
                    0 <= j < self.consumers@.len() ==> self.consumers@[j]@ != typ@,
                forall|j: int|
                    0 <= j < spec_route(self.consumers@, typ@) ==> self.consumers@[j]@ != typ@,
            decreases self.consumers@.len() - i,
        {
            if self.consumers[i] == *typ {
                return Some(i);
            }
            i = i + 1;
        }
        None
    }
}

pub proof fn lemma_spec_route(consumers: Seq<String>, typ: Seq<char>)
    ensures
        spec_route(consumers, typ) < consumers.len(),
        spec_route(consumers, typ) >= -1,
        spec_route(consumers, typ) >= 0 ==> consumers[spec_route(consumers, typ)]@ == typ,
        spec_route(consumers, typ) < 0 ==> forall|j: int|
            0 <= j < consumers.len() ==> consumers[j]@ != typ,
        forall|j: int| 0 <= j < spec_route(consumers, typ) ==> consumers[j]@ != typ,
    decreases consumers.len(),
{
    if consumers.len() > 0 && consumers[0]@ != typ {
        lemma_spec_route(consumers.drop_first(), typ);
        assert forall|j: int|
            0 <= j < consumers.len() && spec_route(consumers, typ) < 0 implies consumers[j]@
            != typ by {
            if j > 0 {
                assert(consumers.drop_first()[j - 1] == consumers[j]);
            }
        }
        assert forall|j: int| 0 <= j < spec_route(consumers, typ) implies consumers[j]@ != typ by {
            if j > 0 {
                assert(consumers.drop_first()[j - 1] == consumers[j]);
            }
        }
    }
}

/// Encodes a packet for the wire, but only over an active connection.
pub fn send(conn: ConnectionState, p: &Packet) -> (r: Result<String, SendError>)
    ensures
        r is Ok <==> conn == ConnectionState::Active,
        r matches Ok(text) ==> text@ == record_chars(p.typ@, p.id@, p.body),
        r is Err ==> r == Err::<String, SendError>(SendError::NotConnected),
{
    match conn {
        ConnectionState::Active => Ok(encode(p)),
        _ => Err(SendError::NotConnected),
    }
}

} // verus!
