use respkv::command::{interpret, Command, CommandError};
use respkv::value::Value;

fn bulk(text: &str) -> Value {
    Value::BulkString(text.to_string())
}

fn bulks(texts: &[&str]) -> Vec<Value> {
    texts.iter().map(|t| bulk(t)).collect()
}

fn ask(name: &str, args: &[&str]) -> Result<Command, CommandError> {
    interpret(name.to_string(), bulks(args))
}

#[test]
fn to_command_splits_name_and_arguments() {
    let value = Value::Array(bulks(&["SET", "key", "Value"]));
    assert_eq!(value.to_command(), Ok(("SET".to_string(), bulks(&["key", "Value"]))));
}

#[test]
fn to_command_keeps_the_name_as_sent() {
    let value = Value::Array(bulks(&["PiNg"]));
    assert_eq!(value.to_command(), Ok(("PiNg".to_string(), vec![])));
}

#[test]
fn to_command_rejects_what_is_no_array() {
    assert_eq!(bulk("PING").to_command(), Err(CommandError::NotAnArray));
    assert_eq!(Value::SimpleString("PING".to_string()).to_command(), Err(CommandError::NotAnArray));
    assert_eq!(Value::Error("PING".to_string()).to_command(), Err(CommandError::NotAnArray));
    assert_eq!(Value::NullValue.to_command(), Err(CommandError::NotAnArray));
}

#[test]
fn to_command_rejects_an_empty_array() {
    assert_eq!(Value::Array(vec![]).to_command(), Err(CommandError::EmptyArray));
}

#[test]
fn to_command_rejects_elements_that_are_no_bulk_strings() {
    let name = Value::Array(vec![Value::SimpleString("PING".to_string())]);
    assert_eq!(name.to_command(), Err(CommandError::NotBulkString));
    let argument = Value::Array(vec![bulk("ECHO"), Value::NullValue]);
    assert_eq!(argument.to_command(), Err(CommandError::NotBulkString));
    let nested = Value::Array(vec![bulk("ECHO"), bulk("a"), Value::Array(vec![])]);
    assert_eq!(nested.to_command(), Err(CommandError::NotBulkString));
}

#[test]
fn ping_in_any_case() {
    assert_eq!(ask("PING", &[]), Ok(Command::Ping));
    assert_eq!(ask("ping", &[]), Ok(Command::Ping));
    assert_eq!(ask("pInG", &[]), Ok(Command::Ping));
}

#[test]
fn ping_ignores_arguments() {
    assert_eq!(ask("PING", &["extra"]), Ok(Command::Ping));
}

#[test]
fn echo_takes_its_first_argument_unchanged() {
    assert_eq!(ask("ECHO", &["Hello"]), Ok(Command::Echo(bulk("Hello"))));
    assert_eq!(ask("echo", &["a", "b"]), Ok(Command::Echo(bulk("a"))));
}

#[test]
fn echo_without_argument_is_an_error() {
    assert_eq!(ask("ECHO", &[]), Err(CommandError::MissingArgument));
}

#[test]
fn set_takes_key_and_value() {
    assert_eq!(
        ask("SET", &["Key", "Value"]),
        Ok(Command::SetKey {
            key: "Key".to_string(),
            value: "Value".to_string(),
            expiry: Ok(None)
        })
    );
}

#[test]
fn set_without_key_or_value_is_an_error() {
    assert_eq!(ask("SET", &[]), Err(CommandError::MissingArgument));
    assert_eq!(ask("SET", &["k"]), Err(CommandError::MissingArgument));
}

#[test]
fn set_reads_px_in_any_case() {
    for flag in ["PX", "px", "Px", "pX"] {
        assert_eq!(
            ask("set", &["k", "v", flag, "1500"]),
            Ok(Command::SetKey {
                key: "k".to_string(),
                value: "v".to_string(),
                expiry: Ok(Some(1500))
            })
        );
    }
}

#[test]
fn set_ignores_other_flags() {
    for flag in ["EX", "NX", "P", "PXX", "", "p\u{78}\u{301}"] {
        assert_eq!(
            ask("SET", &["k", "v", flag, "10"]),
            Ok(Command::SetKey { key: "k".to_string(), value: "v".to_string(), expiry: Ok(None) })
        );
    }
    assert_eq!(
        ask("SET", &["k", "v", "EX"]),
        Ok(Command::SetKey { key: "k".to_string(), value: "v".to_string(), expiry: Ok(None) })
    );
}

#[test]
fn set_keeps_an_unreadable_expiry_as_an_error() {
    let with = |expiry| Ok(Command::SetKey {
        key: "k".to_string(),
        value: "v".to_string(),
        expiry,
    });
    assert_eq!(ask("SET", &["k", "v", "PX", "soon"]), with(Err(CommandError::InvalidExpiry)));
    assert_eq!(ask("SET", &["k", "v", "PX", "-5"]), with(Err(CommandError::InvalidExpiry)));
    assert_eq!(ask("SET", &["k", "v", "PX", ""]), with(Err(CommandError::InvalidExpiry)));
    assert_eq!(ask("SET", &["k", "v", "PX", "1.5"]), with(Err(CommandError::InvalidExpiry)));
    assert_eq!(
        ask("SET", &["k", "v", "PX", "18446744073709551616"]),
        with(Err(CommandError::InvalidExpiry))
    );
    assert_eq!(ask("SET", &["k", "v", "PX"]), with(Err(CommandError::MissingArgument)));
}

#[test]
fn set_reads_the_whole_range_of_expiries() {
    assert_eq!(
        ask("SET", &["k", "v", "PX", "0"]),
        Ok(Command::SetKey { key: "k".to_string(), value: "v".to_string(), expiry: Ok(Some(0)) })
    );
    assert_eq!(
        ask("SET", &["k", "v", "PX", "18446744073709551615"]),
        Ok(Command::SetKey {
            key: "k".to_string(),
            value: "v".to_string(),
            expiry: Ok(Some(u64::MAX))
        })
    );
}

#[test]
fn get_takes_a_key() {
    assert_eq!(ask("GET", &["Key"]), Ok(Command::GetKey { key: "Key".to_string() }));
    assert_eq!(ask("get", &["k", "more"]), Ok(Command::GetKey { key: "k".to_string() }));
}

#[test]
fn get_without_key_is_an_error() {
    assert_eq!(ask("GET", &[]), Err(CommandError::MissingArgument));
}

#[test]
fn other_names_are_unknown_commands() {
    assert_eq!(ask("FOO", &[]), Ok(Command::Unknown("FOO".to_string())));
    assert_eq!(ask("", &[]), Ok(Command::Unknown("".to_string())));
    assert_eq!(ask("PINGS", &[]), Ok(Command::Unknown("PINGS".to_string())));
    assert_eq!(ask("PIN", &[]), Ok(Command::Unknown("PIN".to_string())));
    assert_eq!(ask("p\u{131}ng", &[]), Ok(Command::Unknown("p\u{131}ng".to_string())));
    assert_eq!(ask("del", &["k"]), Ok(Command::Unknown("del".to_string())));
}

#[test]
fn arguments_that_are_no_bulk_strings_are_errors() {
    assert_eq!(
        interpret("GET".to_string(), vec![Value::NullValue]),
        Err(CommandError::NotBulkString)
    );
    assert_eq!(
        interpret("SET".to_string(), vec![bulk("k"), Value::SimpleString("v".to_string())]),
        Err(CommandError::NotBulkString)
    );
    assert_eq!(
        interpret("SET".to_string(), vec![bulk("k"), bulk("v"), bulk("px"), Value::NullValue]),
        Ok(Command::SetKey {
            key: "k".to_string(),
            value: "v".to_string(),
            expiry: Err(CommandError::NotBulkString)
        })
    );
    assert_eq!(
        interpret("SET".to_string(), vec![bulk("k"), bulk("v"), Value::NullValue, bulk("1")]),
        Ok(Command::SetKey { key: "k".to_string(), value: "v".to_string(), expiry: Ok(None) })
    );
}
