use confgen::coerce::CoercionError;
use confgen::error::ConfigError;

#[test]
fn messages_name_the_option() {
    assert_eq!(
        ConfigError::UnknownOption("who".to_string()).message(),
        "Option who not found in configuration file."
    );
    assert_eq!(
        ConfigError::InvalidOptionType { id: "who".to_string(), declared_type: "List".to_string() }
            .message(),
        "Option who has invalid type List."
    );
    assert_eq!(
        ConfigError::DuplicateOption("who".to_string()).message(),
        "Option who is declared more than once."
    );
    assert_eq!(
        ConfigError::MissingRequiredValue("who".to_string()).message(),
        "Option who does not have a default, you must enter a value for it."
    );
    assert_eq!(
        ConfigError::NotANumber { id: "who".to_string(), raw: "x".to_string() }.message(),
        "Error parsing number type for option who."
    );
    assert_eq!(
        ConfigError::NotABoolean { id: "who".to_string(), raw: "x".to_string() }.message(),
        "Error parsing boolean type for option who."
    );
}

#[test]
fn messages_carry_the_reason() {
    assert_eq!(
        ConfigError::SchemaLoadError("missing field `path`".to_string()).message(),
        "Error parsing config file: missing field `path`"
    );
    assert_eq!(
        ConfigError::OutputWriteError("permission denied".to_string()).message(),
        "Error writing configuration file: permission denied"
    );
}

#[test]
fn tagged_keeps_the_raw_text() {
    assert_eq!(
        ConfigError::tagged(CoercionError::NotANumber("x".to_string()), "n".to_string()),
        ConfigError::NotANumber { id: "n".to_string(), raw: "x".to_string() }
    );
    assert_eq!(
        ConfigError::tagged(CoercionError::NotABoolean("x".to_string()), "b".to_string()),
        ConfigError::NotABoolean { id: "b".to_string(), raw: "x".to_string() }
    );
}
