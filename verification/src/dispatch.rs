//! The command dispatcher.
//!
//! A decoded command is executed against the shared storage backend
//! and turned into the reply bytes the wire protocol prescribes:
//! single-byte sentinels (1 for success or presence, 0 for a miss, a
//! failed store or an unknown opcode), the raw value bytes for a GET
//! hit, and an empty reply plus a close directive for QUIT.
//!
//! Two deliberate choices the protocol leaves open: an unknown opcode
//! answers the single error byte, not literal text; and a GET hit on
//! a legitimately empty value answers zero bytes, which on the wire
//! cannot be told from a miss — presence stays observable through
//! EXISTS, and the store itself keeps the two apart.

use vstd::prelude::*;
use crate::arena::ArenaStore;
use crate::command::Command;
use crate::store::ConcurrentMap;
use crate::store::StoreError;

verus! {

/// The reply byte for success, presence, or PING.
pub const SUCCESS: u8 = 1;

/// The reply byte for a miss, a failed store, or an unknown opcode.
pub const ERROR: u8 = 0;

/// The shared storage backend: a concurrent hash map or a byte arena.
pub enum Backend {
    Concurrent(ConcurrentMap),
    Arena(ArenaStore),
}

impl View for Backend {
    type V = Map<Seq<char>, Seq<u8>>;

    /// The abstract contents of whichever variant is in use.
    open spec fn view(&self) -> Map<Seq<char>, Seq<u8>> {
        match self {
            Backend::Concurrent(m) => m@,
            Backend::Arena(a) => a@,
        }
    }
}

impl Backend {
    /// The invariant the variant in use carries.
    pub open spec fn inv(self) -> bool {
        match self {
            Backend::Concurrent(_) => true,
            Backend::Arena(a) => a.wf(),
        }
    }

    /// Whether a `set` of a value of this length is owed success: the
    /// hash map always is, the arena exactly when a free range can
    /// hold the value.
    pub open spec fn can_store(self, len: nat) -> bool {
        match self {
            Backend::Concurrent(_) => true,
            Backend::Arena(a) => len == 0 || len as int <= a.largest_free(),
        }
    }

    /// Looks a key up; a hit returns a copy of the stored bytes.
    pub fn get(&self, key: &String) -> (r: Option<Vec<u8>>)
        requires
            self.inv(),
        ensures
            match r {
                Some(v) => self@.contains_key(key@) && v@ == self@[key@],
                None => !self@.contains_key(key@),
            },
    {
        match self {
            Backend::Concurrent(m) => m.get(key),
            Backend::Arena(a) => a.get(key),
        }
    }

    /// Stores a value under a key; succeeds exactly when the backend
    /// can hold it, and mutates nothing otherwise.
    pub fn set(&mut self, key: String, value: Vec<u8>) -> (r: Result<(), StoreError>)
        requires
            old(self).inv(),
        ensures
            final(self).inv(),
            (r is Ok) <==> old(self).can_store(value@.len()),
            r is Ok ==> final(self)@ == old(self)@.insert(key@, value@),
            r is Err ==> *final(self) == *old(self),
    {
        match self {
            Backend::Concurrent(m) => m.set(key, value),
            Backend::Arena(a) => a.set(&key, &value),
        }
    }

    /// Tells whether a key is present.
    pub fn contains(&self, key: &String) -> (r: bool)
        requires
            self.inv(),
        ensures
            r == self@.contains_key(key@),
    {
        match self {
            Backend::Concurrent(m) => m.contains(key),
            Backend::Arena(a) => a.contains(key),
        }
    }

    /// Removes a key; deleting an absent key changes nothing.
    pub fn delete(&mut self, key: &String)
        requires
            old(self).inv(),
        ensures
            final(self).inv(),
            final(self)@ == old(self)@.remove(key@),
    {
        match self {
            Backend::Concurrent(m) => m.delete(key),
            Backend::Arena(a) => a.delete(key),
        }
    }
}

/// The contents after one command: SET binds the key when the backend
/// can hold the value, DELETE unbinds it, every other command reads
/// only.
pub open spec fn contents_after(
    pre: Map<Seq<char>, Seq<u8>>,
    can: bool,
    command: Command,
    key: Seq<char>,
    payload: Seq<u8>,
) -> Map<Seq<char>, Seq<u8>> {
    if command == Command::SET && can {
        pre.insert(key, payload)
    } else if command == Command::DELETE {
        pre.remove(key)
    } else {
        pre
    }
}

/// The reply one command earns: a GET hit answers the value bytes
/// verbatim, QUIT answers nothing, everything else answers one
/// sentinel byte.
pub open spec fn reply_for(
    pre: Map<Seq<char>, Seq<u8>>,
    can: bool,
    command: Command,
    key: Seq<char>,
) -> Seq<u8> {
    match command {
        Command::PING => seq![SUCCESS],
        Command::QUIT => Seq::<u8>::empty(),
        Command::GET => if pre.contains_key(key) {
            pre[key]
        } else {
            seq![ERROR]
        },
        Command::SET => if can {
            seq![SUCCESS]
        } else {
            seq![ERROR]
        },
        Command::EXISTS => if pre.contains_key(key) {
            seq![SUCCESS]
        } else {
            seq![ERROR]
        },
        Command::DELETE => seq![SUCCESS],
        Command::UNKNOWN => seq![ERROR],
    }
}

/// What the dispatcher hands back: the reply bytes to write, and
/// whether the connection is to be closed once they are written.
pub struct DispatchOutcome {
    pub reply: Vec<u8>,
    pub close: bool,
}

/// Executes one decoded command against the backend and builds the
/// reply.  Only SET and DELETE may change the store; a command that
/// reads leaves it untouched, and a SET the backend cannot hold
/// leaves it untouched too.
pub fn dispatch(command: Command, key: String, payload: Vec<u8>, store: &mut Backend) -> (r:
    DispatchOutcome)
    requires
        old(store).inv(),
    ensures
        final(store).inv(),
        final(store)@ == contents_after(
            old(store)@,
            old(store).can_store(payload@.len()),
            command,
            key@,
            payload@,
        ),
        r.reply@ == reply_for(
            old(store)@,
            old(store).can_store(payload@.len()),
            command,
            key@,
        ),
        r.close == (command == Command::QUIT),
        command != Command::SET && command != Command::DELETE ==> *final(store) == *old(
            store,
        ),
{
    match command {
        Command::PING => DispatchOutcome { reply: vec![SUCCESS], close: false },
        Command::QUIT => DispatchOutcome { reply: Vec::new(), close: true },
        Command::GET => {
            match store.get(&key) {
                Some(v) => DispatchOutcome { reply: v, close: false },
                None => DispatchOutcome { reply: vec![ERROR], close: false },
            }
        },
        Command::SET => {
            match store.set(key, payload) {
                Ok(()) => DispatchOutcome { reply: vec![SUCCESS], close: false },
                Err(_) => DispatchOutcome { reply: vec![ERROR], close: false },
            }
        },
        Command::EXISTS => {
            if store.contains(&key) {
                DispatchOutcome { reply: vec![SUCCESS], close: false }
            } else {
                DispatchOutcome { reply: vec![ERROR], close: false }
            }
        },
        Command::DELETE => {
            store.delete(&key);
            DispatchOutcome { reply: vec![SUCCESS], close: false }
        },
        Command::UNKNOWN => DispatchOutcome { reply: vec![ERROR], close: false },
    }
}

} // verus!
