use vstd::prelude::*;

verus! {

/// A driver id that the driver manager does not know.
#[derive(Debug)]
pub struct DriverNotFoundError;

/// A command that no category of the driver declares.
#[derive(Debug)]
pub struct UnknownCommandError {
    pub name: String,
}

/// A required configuration key that has neither a driver schema nor a global one.
#[derive(Debug)]
pub struct UnknownConfigError {
    pub name: String,
}

/// A schema field without a `"type"` string.
#[derive(Debug)]
pub struct TypeNotFoundError {
    pub field: String,
}

/// A name that no search path resolves.
#[derive(Debug)]
pub struct CannotResolveError {
    pub name: String,
}

/// A driver library that lacks some of the symbols its categories require.
#[derive(Debug)]
pub struct SymbolsNotEnoughError {
    pub requires: Vec<String>,
    pub common: String,
    pub name: String,
}

/// A `key=value` configuration argument with more than one `=`.
#[derive(Debug)]
pub struct MalformedConfigPairError {
    pub config: String,
}

/// The errors of this library.
///
/// `Error::message` gives the text of each.
#[derive(Debug)]
pub enum Error {
    DriverNotFound(DriverNotFoundError),
    UnknownCommand(UnknownCommandError),
    UnknownConfig(UnknownConfigError),
    TypeNotFound(TypeNotFoundError),
    CannotResolve(CannotResolveError),
    SymbolsNotEnough(SymbolsNotEnoughError),
    MalformedConfigPair(MalformedConfigPairError),
}

impl DriverNotFoundError {
    /// The text of this error.
    pub fn message(&self) -> (r: String)
        ensures
            r@ == "Internal Error: Use of unknown driver id"@,
    {
        String::from_str("Internal Error: Use of unknown driver id")
    }
}

impl UnknownCommandError {
    /// The text of this error.
    pub fn message(&self) -> (r: String)
        ensures
            r@ == "Unknown command: "@ + self.name@,
    {
        String::from_str("Unknown command: ").concat(self.name.as_str())
    }
}

impl UnknownConfigError {
    /// The text of this error.
    pub fn message(&self) -> (r: String)
        ensures
            r@ == "Use of unknown config key: "@ + self.name@,
    {
        String::from_str("Use of unknown config key: ").concat(self.name.as_str())
    }
}

impl TypeNotFoundError {
    /// The text of this error.
    pub fn message(&self) -> (r: String)
        ensures
            r@ == "Cannot find type from schema \""@ + self.field@ + "\""@,
    {
        String::from_str("Cannot find type from schema \"").concat(self.field.as_str()).concat("\"")
    }
}

impl CannotResolveError {
    /// The text of this error.
    pub fn message(&self) -> (r: String)
        ensures
            r@ == "Cannot resolve name "@ + self.name@,
    {
        String::from_str("Cannot resolve name ").concat(self.name.as_str())
    }
}

impl MalformedConfigPairError {
    /// The text of this error.
    pub fn message(&self) -> (r: String)
        ensures
            r@ == "Malformed Config Pair: "@ + crate::text::debug_text(self.config@),
    {
        let d = crate::text::debug_string(self.config.as_str());
        String::from_str("Malformed Config Pair: ").concat(d.as_str())
    }
}

impl SymbolsNotEnoughError {
    /// The text of this error.
    pub fn message(&self) -> (r: String)
        ensures
            r@ == "Cannot find all required symbols "@ + crate::text::debug_list_text(crate::util::strings_view(self.requires@))
                + " and "@ + self.common@ + " in driver "@ + self.name@,
    {
        let l = crate::text::debug_list(&self.requires);
        String::from_str("Cannot find all required symbols ").concat(l.as_str()).concat(" and ").concat(
            self.common.as_str(),
        ).concat(" in driver ").concat(self.name.as_str())
    }
}


impl Error {
    /// The text of this error.
    pub fn message(&self) -> (r: String)
        ensures
            r@ == match self {
                Error::DriverNotFound(_) => "Internal Error: Use of unknown driver id"@,
                Error::UnknownCommand(e) => "Unknown command: "@ + e.name@,
                Error::UnknownConfig(e) => "Use of unknown config key: "@ + e.name@,
                Error::TypeNotFound(e) => "Cannot find type from schema \""@ + e.field@ + "\""@,
                Error::CannotResolve(e) => "Cannot resolve name "@ + e.name@,
                Error::SymbolsNotEnough(e) => "Cannot find all required symbols "@ + crate::text::debug_list_text(
                    crate::util::strings_view(e.requires@),
                ) + " and "@ + e.common@ + " in driver "@ + e.name@,
                Error::MalformedConfigPair(e) => "Malformed Config Pair: "@ + crate::text::debug_text(e.config@),
            },
    {
        match self {
            Error::DriverNotFound(e) => e.message(),
            Error::UnknownCommand(e) => e.message(),
            Error::UnknownConfig(e) => e.message(),
            Error::TypeNotFound(e) => e.message(),
            Error::CannotResolve(e) => e.message(),
            Error::SymbolsNotEnough(e) => e.message(),
            Error::MalformedConfigPair(e) => e.message(),
        }
    }
}

} // verus!
