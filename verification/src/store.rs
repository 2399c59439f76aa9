//! The key-value store and what each command does to it.

use vstd::prelude::*;
use vstd::hash_map::StringHashMap;
use vstd::string::StringExecFns;
use crate::command::{Command, CommandError, Request};
use crate::value::{Model, Value};

verus! {

/// What a store holds: the value of each key that has one.
pub type Entries = Map<Seq<char>, Seq<char>>;

/// The entries after `key` was given the value `value`.
pub open spec fn spec_set(db: Entries, key: Seq<char>, value: Seq<char>) -> Entries {
    db.insert(key, value)
}

/// The entries after `key` was removed.
pub open spec fn spec_remove(db: Entries, key: Seq<char>) -> Entries {
    db.remove(key)
}

/// The value of `key`, if it has one.
pub open spec fn spec_get(db: Entries, key: Seq<char>) -> Option<Seq<char>> {
    if db.contains_key(key) {
        Some(db[key])
    } else {
        None
    }
}

/// A removal that is due some time after a key was set. It names the key
/// only: when it is carried out, the key goes whatever it then holds.
#[derive(Debug, PartialEq, Eq)]
pub struct Expiry {
    /// The key to remove.
    pub key: String,
    /// How long to wait before removing it, in milliseconds.
    pub delay_ms: u64,
}

/// The model of an [`Expiry`]: the key and the delay.
pub open spec fn expiry_model(expiry: Option<Expiry>) -> Option<(Seq<char>, u64)> {
    match expiry {
        Some(e) => Some((e.key@, e.delay_ms)),
        None => None,
    }
}

/// What executing a command gave: the reply for the client and, where the
/// command asked for one, the removal to schedule.
#[derive(Debug, PartialEq, Eq)]
pub struct Outcome {
    /// The reply to send.
    pub reply: Value,
    /// The removal to carry out after its delay.
    pub expiry: Option<Expiry>,
}

/// The entries after `request` was executed on `db`. Only a set changes them,
/// and it does so even where its expiry could not be read.
pub open spec fn entries_after(db: Entries, request: Request) -> Entries {
    match request {
        Request::SetKey { key, value, expiry } => spec_set(db, key, value),
        _ => db,
    }
}

/// The reply to `request` when it is executed on `db`, or the error that ends
/// the connection.
pub open spec fn reply_to(db: Entries, request: Request) -> Result<Model, CommandError> {
    match request {
        Request::Ping => Ok(Model::SimpleString("PONG"@)),
        Request::Echo(value) => Ok(value),
        Request::SetKey { key, value, expiry } => match expiry {
            Ok(_) => Ok(Model::SimpleString("OK"@)),
            Err(e) => Err(e),
        },
        Request::GetKey { key } => match spec_get(db, key) {
            Some(value) => Ok(Model::BulkString(value)),
            None => Ok(Model::NullValue),
        },
        Request::Unknown(name) => Ok(Model::Error("command not implemented: "@ + name)),
    }
}

/// The removal that `request` asks to schedule: that of the key of a set with
/// an expiry, after that many milliseconds.
pub open spec fn expiry_for(request: Request) -> Option<(Seq<char>, u64)> {
    match request {
        Request::SetKey { key, value, expiry: Ok(Some(ms)) } => Some((key, ms)),
        _ => None,
    }
}

/// A mapping from keys to values.
pub struct Store {
    entries: StringHashMap<String>,
}

impl View for Store {
    type V = Entries;

    closed spec fn view(&self) -> Entries {
        self.entries@.map_values(|value: String| value@)
    }
}

impl Store {
    /// A store without entries.
    pub fn new() -> (store: Store)
        ensures
            store@ == Map::<Seq<char>, Seq<char>>::empty(),
    {
        Store { entries: StringHashMap::new() }
    }

    /// Gives `key` the value `value`, whether or not it had one.
    pub fn set(&mut self, key: String, value: String)
        ensures
            final(self)@ == spec_set(old(self)@, key@, value@),
    {
        self.entries.insert(key, value);
    }

    /// Gives `key` the value `value` and returns the removal of `key` that is
    /// to be carried out, with [`Store::expire`], once `ttl_ms` milliseconds
    /// have passed.
    pub fn set_with_expiry(&mut self, key: String, value: String, ttl_ms: u64) -> (expiry: Expiry)
        ensures
            final(self)@ == spec_set(old(self)@, key@, value@),
            expiry.key@ == key@,
            expiry.delay_ms == ttl_ms,
    {
        let expiry = Expiry { key: key.clone(), delay_ms: ttl_ms };
        self.set(key, value);
        expiry
    }

    /// The value of `key`, if it has one.
    pub fn get(&self, key: &str) -> (value: Option<String>)
        ensures
            match value {
                Some(text) => spec_get(self@, key@) == Some(text@),
                None => spec_get(self@, key@) is None,
            },
    {
        match self.entries.get(key) {
            Some(text) => Some(text.clone()),
            None => None,
        }
    }

    /// Removes `key`; a key without a value stays without one.
    pub fn remove(&mut self, key: &str)
        ensures
            final(self)@ == spec_remove(old(self)@, key@),
    {
        self.entries.remove(key);
    }

    /// Carries out a removal that has come due: its key is removed, also where
    /// it was set anew in the meantime.
    pub fn expire(&mut self, expiry: &Expiry)
        ensures
            final(self)@ == spec_remove(old(self)@, expiry.key@),
    {
        self.remove(expiry.key.as_str());
    }

    /// Executes `command`: changes the entries as it asks, and returns the
    /// reply together with the removal to schedule, or the error that ends
    /// the connection.
    pub fn execute(&mut self, command: Command) -> (r: Result<Outcome, CommandError>)
        ensures
            final(self)@ == entries_after(old(self)@, command@),
            match r {
                Ok(outcome) => reply_to(old(self)@, command@) == Ok::<_, CommandError>(
                    outcome.reply@,
                ) && expiry_model(outcome.expiry) == expiry_for(command@),
                Err(e) => reply_to(old(self)@, command@) == Err::<Model, _>(e),
            },
    {
        match command {
            Command::Ping => Ok(
                Outcome { reply: Value::SimpleString(String::from_str("PONG")), expiry: None },
            ),
            Command::Echo(value) => Ok(Outcome { reply: value, expiry: None }),
            Command::SetKey { key, value, expiry } => match expiry {
                Ok(Some(ms)) => {
                    let due = self.set_with_expiry(key, value, ms);
                    Ok(
                        Outcome {
                            reply: Value::SimpleString(String::from_str("OK")),
                            expiry: Some(due),
                        },
                    )
                },
                Ok(None) => {
                    self.set(key, value);
                    Ok(Outcome { reply: Value::SimpleString(String::from_str("OK")), expiry: None })
                },
                Err(e) => {
                    self.set(key, value);
                    Err(e)
                },
            },
            Command::GetKey { key } => match self.get(key.as_str()) {
                Some(text) => Ok(Outcome { reply: Value::BulkString(text), expiry: None }),
                None => Ok(Outcome { reply: Value::NullValue, expiry: None }),
            },
            Command::Unknown(name) => {
                let message = String::from_str("command not implemented: ").concat(name.as_str());
                Ok(Outcome { reply: Value::Error(message), expiry: None })
            },
        }
    }
}

/// A get of a key that was never set is answered with the null value, and a
/// get of a key that was set with the value it was set to.
pub proof fn lemma_reply_to_get(db: Entries, key: Seq<char>, value: Seq<char>)
    ensures
        reply_to(Map::<Seq<char>, Seq<char>>::empty(), Request::GetKey { key }) == Ok::<
            _,
            CommandError,
        >(Model::NullValue),
        reply_to(spec_set(db, key, value), Request::GetKey { key }) == Ok::<_, CommandError>(
            Model::BulkString(value),
        ),
{
}

/// One change to the entries of a store.
pub enum Change {
    /// A key is given a value.
    Write { key: Seq<char>, value: Seq<char> },
    /// A key is removed.
    Erase { key: Seq<char> },
}

impl Change {
    /// The key that the change is about.
    pub open spec fn key(self) -> Seq<char> {
        match self {
            Change::Write { key, value } => key,
            Change::Erase { key } => key,
        }
    }

    /// The entries after the change was made to `db`.
    pub open spec fn apply(self, db: Entries) -> Entries {
        match self {
            Change::Write { key, value } => spec_set(db, key, value),
            Change::Erase { key } => spec_remove(db, key),
        }
    }
}

/// The entries after the changes `changes` were made to `db`, one after the
/// other.
pub open spec fn apply_all(db: Entries, changes: Seq<Change>) -> Entries
    decreases changes.len(),
{
    if changes.len() == 0 {
        db
    } else {
        changes.last().apply(apply_all(db, changes.drop_last()))
    }
}

/// A key that was never set has no value.
pub proof fn lemma_get_never_set(key: Seq<char>)
    ensures
        spec_get(Map::<Seq<char>, Seq<char>>::empty(), key) is None,
{
}

/// Right after a key was set, it has the value it was set to.
pub proof fn lemma_get_after_set(db: Entries, key: Seq<char>, value: Seq<char>)
    ensures
        spec_get(spec_set(db, key, value), key) == Some(value),
{
}

/// A removed key has no value, and removing it once more changes nothing.
pub proof fn lemma_get_after_remove(db: Entries, key: Seq<char>)
    ensures
        spec_get(spec_remove(db, key), key) is None,
        spec_remove(spec_remove(db, key), key) == spec_remove(db, key),
{
}

/// A change to one key leaves the value of every other key as it was.
pub proof fn lemma_change_is_local(db: Entries, change: Change, key: Seq<char>)
    requires
        change.key() != key,
    ensures
        spec_get(change.apply(db), key) == spec_get(db, key),
{
}

/// A key keeps the value it was set to as long as no later change is about
/// that key.
pub proof fn lemma_value_stays(
    db: Entries,
    key: Seq<char>,
    value: Seq<char>,
    later: Seq<Change>,
)
    requires
        forall|i: int| 0 <= i < later.len() ==> (#[trigger] later[i]).key() != key,
    ensures
        spec_get(apply_all(spec_set(db, key, value), later), key) == Some(value),
    decreases later.len(),
{
    if later.len() > 0 {
        let before = later.drop_last();
        assert forall|i: int| 0 <= i < before.len() implies (#[trigger] before[i]).key()
            != key by {}
        lemma_value_stays(db, key, value, before);
        lemma_change_is_local(apply_all(spec_set(db, key, value), before), later.last(), key);
    }
}

/// When the removal that was scheduled with a set is carried out, the key has
/// no value, whatever was done in between: a value set anew for that key in
/// the meantime goes too.
pub proof fn lemma_expiry_removes(
    db: Entries,
    key: Seq<char>,
    value: Seq<char>,
    between: Seq<Change>,
)
    ensures
        spec_get(spec_set(db, key, value), key) == Some(value),
        spec_get(spec_remove(apply_all(spec_set(db, key, value), between), key), key) is None,
{
}

/// The value of a key is decided by the last change that is about the key:
/// the value it wrote, none if it erased, and the value before all changes if
/// there is no such change.
pub proof fn lemma_last_change_decides(db: Entries, changes: Seq<Change>, key: Seq<char>, i: int)
    requires
        -1 <= i < changes.len(),
        i >= 0 ==> changes[i].key() == key,
        forall|j: int| i < j < changes.len() ==> (#[trigger] changes[j]).key() != key,
    ensures
        spec_get(apply_all(db, changes), key) == (if i < 0 {
            spec_get(db, key)
        } else {
            match changes[i] {
                Change::Write { key, value } => Some(value),
                Change::Erase { key } => None,
            }
        }),
    decreases changes.len(),
{
    if changes.len() > 0 {
        let before = changes.drop_last();
        if i < changes.len() - 1 {
            assert forall|j: int| i < j < before.len() implies (#[trigger] before[j]).key()
                != key by {}
            lemma_last_change_decides(db, before, key, i);
            lemma_change_is_local(apply_all(db, before), changes.last(), key);
        }
    }
}

/// A key only ever has a value that it had at the start or that one of the
/// changes wrote for it, whole.
pub proof fn lemma_value_was_written(db: Entries, changes: Seq<Change>, key: Seq<char>)
    ensures
        spec_get(apply_all(db, changes), key) matches Some(value) ==> spec_get(db, key) == Some(
            value,
        ) || exists|i: int|
            0 <= i < changes.len() && #[trigger] changes[i] == (Change::Write { key, value }),
    decreases changes.len(),
{
    if changes.len() > 0 {
        let before = changes.drop_last();
        lemma_value_was_written(db, before, key);
        if changes.last().key() != key {
            lemma_change_is_local(apply_all(db, before), changes.last(), key);
        }
    }
}

} // verus!
