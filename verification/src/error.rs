use vstd::prelude::*;

verus! {

/// What went wrong while reading or evaluating a program.
#[derive(Debug)]
pub enum RomeError {
    ReaderError(String),
    OperatorError(String),
    ModelingError(String),
    EffectorError(String),
}

/// The mathematical value of a `RomeError`.
pub enum ErrV {
    Reader(Seq<char>),
    Operator(Seq<char>),
    Modeling(Seq<char>),
    Effector(Seq<char>),
}

impl RomeError {
    pub open spec fn view(&self) -> ErrV {
        match self {
            RomeError::ReaderError(s) => ErrV::Reader(s@),
            RomeError::OperatorError(s) => ErrV::Operator(s@),
            RomeError::ModelingError(s) => ErrV::Modeling(s@),
            RomeError::EffectorError(s) => ErrV::Effector(s@),
        }
    }

    /// A reader error with the given message.
    pub fn reader(msg: &str) -> (e: RomeError)
        ensures
            e@ == ErrV::Reader(msg@),
    {
        RomeError::ReaderError(String::from_str(msg))
    }

    /// An operator error with the given message.
    pub fn operator(msg: &str) -> (e: RomeError)
        ensures
            e@ == ErrV::Operator(msg@),
    {
        RomeError::OperatorError(String::from_str(msg))
    }
}

}
