//! From a decoded value to the command it asks for.

use vstd::prelude::*;
use vstd::utf8::{encode_utf8, is_ascii_chars, is_ascii_chars_encode_utf8};
use crate::decimal::{parse_u64, u64_text};
use crate::value::{models, Model, Value};

verus! {

/// The lower-case form of an ASCII capital letter; any other character itself.
pub open spec fn lowered(c: char) -> char {
    if 'A' <= c <= 'Z' {
        ((c as u32) + 32) as char
    } else {
        c
    }
}

/// Whether `name` is `word` when ASCII capitals count as their lower-case
/// letters. `word` is meant to be in lower case.
pub open spec fn same_word(name: Seq<char>, word: Seq<char>) -> bool {
    name.len() == word.len() && forall|i: int|
        0 <= i < name.len() ==> lowered(#[trigger] name[i]) == word[i]
}

/// Tests whether `name` is `word`, ignoring the case of ASCII letters.
fn is_word(name: &str, word: &str) -> (r: bool)
    requires
        is_ascii_chars(word@),
    ensures
        r == same_word(name@, word@),
{
    if !name.is_ascii() {
        proof {
            if same_word(name@, word@) {
                assert forall|i: int| 0 <= i < name@.len() implies '\0' <= #[trigger] name@[i]
                    <= '\u{7f}' by {}
            }
        }
        return false;
    }
    let nb: &[u8] = name.as_bytes();
    let wb: &[u8] = word.as_bytes();
    proof {
        is_ascii_chars_encode_utf8(name@);
        is_ascii_chars_encode_utf8(word@);
    }
    if nb.len() != wb.len() {
        return false;
    }
    let mut i: usize = 0;
    while i < nb.len()
        invariant
            0 <= i <= nb@.len(),
            nb@.len() == wb@.len(),
            nb@.len() == name@.len(),
            wb@.len() == word@.len(),
            is_ascii_chars(name@),
            is_ascii_chars(word@),
            forall|j: int| 0 <= j < name@.len() ==> name@[j] as u8 == #[trigger] nb@[j],
            forall|j: int| 0 <= j < word@.len() ==> word@[j] as u8 == #[trigger] wb@[j],
            forall|j: int| 0 <= j < i ==> lowered(#[trigger] name@[j]) == word@[j],
        decreases nb@.len() - i,
    {
        let b: u8 = nb[i];
        let low: u8 = if 0x41 <= b && b <= 0x5a {
            b + 32
        } else {
            b
        };
        if low != wb[i] {
            return false;
        }
        i = i + 1;
    }
    true
}

/// Why a value, or the arguments it carries, cannot be taken as a command.
#[derive(Clone, Copy, Debug, PartialEq, Eq, Structural)]
pub enum CommandError {
    /// The value is not an array.
    NotAnArray,
    /// The array has no element, so no command name.
    EmptyArray,
    /// An element that has to be a bulk string is something else.
    NotBulkString,
    /// The command needs an argument that was not sent.
    MissingArgument,
    /// The expiry after `PX` is not an unsigned number of 64 bits.
    InvalidExpiry,
}

/// What a client asks for.
#[derive(Debug, PartialEq, Eq)]
pub enum Command {
    /// `PING`.
    Ping,
    /// `ECHO`, with its first argument.
    Echo(Value),
    /// `SET`, with the expiry in milliseconds as far as it could be read: an
    /// error there is met only once key and value have been stored.
    SetKey { key: String, value: String, expiry: Result<Option<u64>, CommandError> },
    /// `GET`.
    GetKey { key: String },
    /// Any other name, kept as it was sent.
    Unknown(String),
}

/// The model of a [`Command`].
pub enum Request {
    Ping,
    Echo(Model),
    SetKey { key: Seq<char>, value: Seq<char>, expiry: Result<Option<u64>, CommandError> },
    GetKey { key: Seq<char> },
    Unknown(Seq<char>),
}

impl View for Command {
    type V = Request;

    open spec fn view(&self) -> Request {
        match self {
            Command::Ping => Request::Ping,
            Command::Echo(value) => Request::Echo(value@),
            Command::SetKey { key, value, expiry } => Request::SetKey {
                key: key@,
                value: value@,
                expiry: *expiry,
            },
            Command::GetKey { key } => Request::GetKey { key: key@ },
            Command::Unknown(name) => Request::Unknown(name@),
        }
    }
}

/// Whether every value in `items` is a bulk string.
pub open spec fn all_bulk(items: Seq<Model>) -> bool {
    forall|i: int| 0 <= i < items.len() ==> #[trigger] items[i] is BulkString
}

/// The command name and the arguments that `v` frames: `v` has to be an array
/// of bulk strings with at least one element; the first is the name, the
/// others are the arguments in order.
pub open spec fn command_of(v: Model) -> Result<(Seq<char>, Seq<Model>), CommandError> {
    match v {
        Model::Array(items) => if items.len() == 0 {
            Err(CommandError::EmptyArray)
        } else if !all_bulk(items) {
            Err(CommandError::NotBulkString)
        } else {
            Ok((items[0]->BulkString_0, items.skip(1)))
        },
        _ => Err(CommandError::NotAnArray),
    }
}

/// The text of argument `i`, which has to be there and to be a bulk string.
pub open spec fn arg_text(args: Seq<Model>, i: int) -> Result<Seq<char>, CommandError> {
    if i >= args.len() {
        Err(CommandError::MissingArgument)
    } else {
        match args[i] {
            Model::BulkString(text) => Ok(text),
            _ => Err(CommandError::NotBulkString),
        }
    }
}

/// The expiry that the arguments after key and value ask for. Only a first
/// argument `PX`, in any case, asks for one; the next argument is then the
/// number of milliseconds. Anything else in first place has no effect.
pub open spec fn expiry_of(rest: Seq<Model>) -> Result<Option<u64>, CommandError> {
    if rest.len() > 0 && rest[0] is BulkString && same_word(rest[0]->BulkString_0, "px"@) {
        match arg_text(rest, 1) {
            Ok(text) => match u64_text(encode_utf8(text)) {
                Some(ms) => Ok(Some(ms)),
                None => Err(CommandError::InvalidExpiry),
            },
            Err(e) => Err(e),
        }
    } else {
        Ok(None)
    }
}

/// The command that a name and its arguments stand for. Names are matched
/// without regard to the case of ASCII letters; arguments are taken as sent.
pub open spec fn request_of(name: Seq<char>, args: Seq<Model>) -> Result<Request, CommandError> {
    if same_word(name, "ping"@) {
        Ok(Request::Ping)
    } else if same_word(name, "echo"@) {
        if args.len() == 0 {
            Err(CommandError::MissingArgument)
        } else {
            Ok(Request::Echo(args[0]))
        }
    } else if same_word(name, "set"@) {
        match arg_text(args, 0) {
            Err(e) => Err(e),
            Ok(key) => match arg_text(args, 1) {
                Err(e) => Err(e),
                Ok(value) => Ok(Request::SetKey { key, value, expiry: expiry_of(args.skip(2)) }),
            },
        }
    } else if same_word(name, "get"@) {
        match arg_text(args, 0) {
            Err(e) => Err(e),
            Ok(key) => Ok(Request::GetKey { key }),
        }
    } else {
        Ok(Request::Unknown(name))
    }
}

impl Value {
    /// Splits a value that frames a command into the command name and the
    /// arguments.
    pub fn to_command(self) -> (r: Result<(String, Vec<Value>), CommandError>)
        ensures
            match r {
                Ok((name, args)) => command_of(self@) == Ok::<_, CommandError>(
                    (name@, models(args@)),
                ),
                Err(e) => command_of(self@) == Err::<(Seq<char>, Seq<Model>), _>(e),
            },
    {
        match self {
            Value::Array(items) => {
                let mut items = items;
                let ghost all = models(items@);
                if items.len() == 0 {
                    return Err(CommandError::EmptyArray);
                }
                let mut i: usize = 0;
                while i < items.len()
                    invariant
                        0 <= i <= items@.len(),
                        all == models(items@),
                        all.len() > 0,
                        self@ == Model::Array(all),
                        forall|j: int| 0 <= j < i ==> #[trigger] all[j] is BulkString,
                    decreases items@.len() - i,
                {
                    match &items[i] {
                        Value::BulkString(_) => {},
                        _ => {
                            assert(!(all[i as int] is BulkString));
                            return Err(CommandError::NotBulkString);
                        },
                    }
                    i = i + 1;
                }
                let first = items.remove(0);
                assert(models(items@) =~= all.skip(1));
                match first {
                    Value::BulkString(name) => Ok((name, items)),
                    _ => Err(CommandError::NotBulkString),
                }
            },
            _ => Err(CommandError::NotAnArray),
        }
    }
}

/// Takes the first of `args` as text.
fn take_text(args: &mut Vec<Value>) -> (r: Result<String, CommandError>)
    ensures
        match r {
            Ok(text) => arg_text(models(old(args)@), 0) == Ok::<_, CommandError>(text@),
            Err(e) => arg_text(models(old(args)@), 0) == Err::<Seq<char>, _>(e),
        },
        old(args)@.len() > 0 ==> models(final(args)@) == models(old(args)@).skip(1),
{
    if args.len() == 0 {
        return Err(CommandError::MissingArgument);
    }
    let first = args.remove(0);
    match first {
        Value::BulkString(text) => Ok(text),
        _ => Err(CommandError::NotBulkString),
    }
}

/// Reads the expiry that the arguments after key and value ask for.
fn read_expiry(rest: &Vec<Value>) -> (r: Result<Option<u64>, CommandError>)
    ensures
        r == expiry_of(models(rest@)),
{
    proof {
        reveal_strlit("px");
    }
    if rest.len() == 0 {
        return Ok(None);
    }
    let asked = match &rest[0] {
        Value::BulkString(flag) => is_word(flag.as_str(), "px"),
        _ => false,
    };
    if !asked {
        return Ok(None);
    }
    if rest.len() < 2 {
        return Err(CommandError::MissingArgument);
    }
    match &rest[1] {
        Value::BulkString(text) => match parse_u64(text.as_str().as_bytes()) {
            Some(ms) => Ok(Some(ms)),
            None => Err(CommandError::InvalidExpiry),
        },
        _ => Err(CommandError::NotBulkString),
    }
}

/// Finds the command that a name and its arguments stand for.
pub fn interpret(name: String, args: Vec<Value>) -> (r: Result<Command, CommandError>)
    ensures
        match r {
            Ok(command) => request_of(name@, models(args@)) == Ok::<_, CommandError>(command@),
            Err(e) => request_of(name@, models(args@)) == Err::<Request, _>(e),
        },
{
    let mut args = args;
    proof {
        reveal_strlit("ping");
        reveal_strlit("echo");
        reveal_strlit("set");
        reveal_strlit("get");
    }
    if is_word(name.as_str(), "ping") {
        Ok(Command::Ping)
    } else if is_word(name.as_str(), "echo") {
        if args.len() == 0 {
            Err(CommandError::MissingArgument)
        } else {
            let first = args.remove(0);
            Ok(Command::Echo(first))
        }
    } else if is_word(name.as_str(), "set") {
        let key = match take_text(&mut args) {
            Ok(text) => text,
            Err(e) => {
                return Err(e);
            },
        };
        let value = match take_text(&mut args) {
            Ok(text) => text,
            Err(e) => {
                return Err(e);
            },
        };
        let expiry = read_expiry(&args);
        Ok(Command::SetKey { key, value, expiry })
    } else if is_word(name.as_str(), "get") {
        match take_text(&mut args) {
            Ok(key) => Ok(Command::GetKey { key }),
            Err(e) => Err(e),
        }
    } else {
        Ok(Command::Unknown(name))
    }
}

} // verus!
