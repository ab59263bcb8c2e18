use peripherio::error::{
    CannotResolveError, DriverNotFoundError, Error, MalformedConfigPairError, SymbolsNotEnoughError,
    TypeNotFoundError, UnknownCommandError, UnknownConfigError,
};

#[test]
fn messages_of_each_error() {
    let cases: Vec<(Error, &str)> = vec![
        (Error::DriverNotFound(DriverNotFoundError), "Internal Error: Use of unknown driver id"),
        (Error::UnknownCommand(UnknownCommandError { name: "blink".to_string() }), "Unknown command: blink"),
        (Error::UnknownConfig(UnknownConfigError { name: "gain".to_string() }), "Use of unknown config key: gain"),
        (Error::TypeNotFound(TypeNotFoundError { field: "x".to_string() }), "Cannot find type from schema \"x\""),
        (Error::CannotResolve(CannotResolveError { name: "gyro".to_string() }), "Cannot resolve name gyro"),
        (
            Error::SymbolsNotEnough(SymbolsNotEnoughError {
                requires: vec!["a\"b".to_string()],
                common: "[\"init\", \"detect\"]".to_string(),
                name: "drv".to_string(),
            }),
            "Cannot find all required symbols [\"a\\\"b\"] and [\"init\", \"detect\"] in driver drv",
        ),
        (
            Error::MalformedConfigPair(MalformedConfigPairError { config: "a=b=\n".to_string() }),
            "Malformed Config Pair: \"a=b=\\n\"",
        ),
    ];
    for (e, text) in cases {
        assert_eq!(e.message(), text);
    }
}

#[test]
fn empty_symbol_list_message() {
    let e = SymbolsNotEnoughError { requires: vec![], common: "c".to_string(), name: "n".to_string() };
    assert_eq!(e.message(), "Cannot find all required symbols [] and c in driver n");
}
