use crate::bfir::CompileError;
use vstd::prelude::*;
use vstd::std_specs::convert::FromSpecImpl;

verus! {

/// The error of a byte stream, as std reports it. Nothing in it is looked at here: it
/// is carried to the caller as it came.
#[verifier::external_type_specification]
#[verifier::external_body]
pub struct ExIoError(std::io::Error);

/// What can stop a running program.
#[derive(Debug)]
pub enum RuntimeError {
    /// A read or a write on one of the streams failed.
    IO(std::io::Error),
    /// The data pointer would have left the arena.
    PointerOverflow,
}

/// Every failure of the machine, by where it arose.
#[derive(Debug)]
pub enum VMError {
    /// The machine could not be set up.
    IO(std::io::Error),
    /// The source text is no program.
    Compile(CompileError),
    /// The program was stopped while it ran.
    Runtime(RuntimeError),
}

impl From<std::io::Error> for RuntimeError {
    fn from(e: std::io::Error) -> (r: RuntimeError) {
        RuntimeError::IO(e)
    }
}

impl FromSpecImpl<std::io::Error> for RuntimeError {
    open spec fn obeys_from_spec() -> bool {
        true
    }

    open spec fn from_spec(e: std::io::Error) -> RuntimeError {
        RuntimeError::IO(e)
    }
}

impl From<std::io::Error> for VMError {
    fn from(e: std::io::Error) -> (r: VMError) {
        VMError::IO(e)
    }
}

impl FromSpecImpl<std::io::Error> for VMError {
    open spec fn obeys_from_spec() -> bool {
        true
    }

    open spec fn from_spec(e: std::io::Error) -> VMError {
        VMError::IO(e)
    }
}

impl From<CompileError> for VMError {
    fn from(e: CompileError) -> (r: VMError) {
        VMError::Compile(e)
    }
}

impl FromSpecImpl<CompileError> for VMError {
    open spec fn obeys_from_spec() -> bool {
        true
    }

    open spec fn from_spec(e: CompileError) -> VMError {
        VMError::Compile(e)
    }
}

impl From<RuntimeError> for VMError {
    fn from(e: RuntimeError) -> (r: VMError) {
        VMError::Runtime(e)
    }
}

impl FromSpecImpl<RuntimeError> for VMError {
    open spec fn obeys_from_spec() -> bool {
        true
    }

    open spec fn from_spec(e: RuntimeError) -> VMError {
        VMError::Runtime(e)
    }
}

/// Wraps what stopped a run as the machine's error.
pub fn vm_error(re: RuntimeError) -> (e: VMError)
    ensures
        e == VMError::Runtime(re),
{
    VMError::from(re)
}

} // verus!
