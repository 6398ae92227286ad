//! The failure modes of a dispatch run. Every one is fatal: the run stops
//! with a message naming the offending token, flag, command or value.

use vstd::prelude::*;
use vstd::string::StringExecFns;

verus! {

/// Why a dispatch run failed.
#[derive(Debug, PartialEq, Eq)]
pub enum FireError {
    /// A token is not of the `--name=value` form.
    MalformedFlag { token: String },
    /// The parsed command name has no entry in the registry.
    CommandNotFound { command: String },
    /// A supplied flag matches no declared parameter of the command.
    UnexpectedArgument { name: String },
    /// A required parameter was not supplied.
    MissingRequiredArgument { name: String },
    /// A supplied value cannot be parsed into the declared type.
    TypeCoercionError { value: String },
    /// No command is registered at all.
    EmptyRegistry,
}

/// The mathematical shape of a `FireError`.
#[verifier::ext_equal]
pub ghost enum ErrSpec {
    MalformedFlag { token: Seq<char> },
    CommandNotFound { command: Seq<char> },
    UnexpectedArgument { name: Seq<char> },
    MissingRequiredArgument { name: Seq<char> },
    TypeCoercionError { value: Seq<char> },
    EmptyRegistry,
}

impl View for FireError {
    type V = ErrSpec;

    open spec fn view(&self) -> ErrSpec {
        match self {
            FireError::MalformedFlag { token } => ErrSpec::MalformedFlag { token: token@ },
            FireError::CommandNotFound { command } => ErrSpec::CommandNotFound {
                command: command@,
            },
            FireError::UnexpectedArgument { name } => ErrSpec::UnexpectedArgument { name: name@ },
            FireError::MissingRequiredArgument { name } => ErrSpec::MissingRequiredArgument {
                name: name@,
            },
            FireError::TypeCoercionError { value } => ErrSpec::TypeCoercionError { value: value@ },
            FireError::EmptyRegistry => ErrSpec::EmptyRegistry,
        }
    }
}

/// The human-readable message of each failure.
pub open spec fn spec_message(e: ErrSpec) -> Seq<char> {
    match e {
        ErrSpec::MalformedFlag { token } => "invalid parameters: '"@ + token + "'"@,
        ErrSpec::CommandNotFound { command } => "func not found: '"@ + command + "'"@,
        ErrSpec::UnexpectedArgument { name } => "unexpected args: "@ + name,
        ErrSpec::MissingRequiredArgument { name } => "arg '"@ + name + "' not specified!"@,
        ErrSpec::TypeCoercionError { value } => "parse "@ + value + " failed"@,
        ErrSpec::EmptyRegistry => "no function registered"@,
    }
}

impl FireError {
    /// The message a program should abort with.
    pub fn message(&self) -> (r: String)
        ensures
            r@ == spec_message(self@),
    {
        match self {
            FireError::MalformedFlag { token } => {
                let mut m = String::from_str("invalid parameters: '");
                m.append(token.as_str());
                m.append("'");
                m
            },
            FireError::CommandNotFound { command } => {
                let mut m = String::from_str("func not found: '");
                m.append(command.as_str());
                m.append("'");
                m
            },
            FireError::UnexpectedArgument { name } => {
                let mut m = String::from_str("unexpected args: ");
                m.append(name.as_str());
                m
            },
            FireError::MissingRequiredArgument { name } => {
                let mut m = String::from_str("arg '");
                m.append(name.as_str());
                m.append("' not specified!");
                m
            },
            FireError::TypeCoercionError { value } => {
                let mut m = String::from_str("parse ");
                m.append(value.as_str());
                m.append(" failed");
                m
            },
            FireError::EmptyRegistry => String::from_str("no function registered"),
        }
    }
}

} // verus!
