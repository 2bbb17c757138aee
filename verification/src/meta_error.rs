//! What can go wrong with table metadata, and what a procedure makes of it.
use crate::region::Peer;
use vstd::prelude::*;

verus! {

/// An error of a metadata operation.
#[derive(Debug)]
pub enum Error {
    /// The operation may succeed if it is tried again later.
    RetryLater { reason: String },
    /// An operation on a datanode failed.
    OperateDatanode { peer: Peer, source: Box<Error> },
    /// The operation is not supported.
    Unsupported { operation: String },
    /// There is no such table.
    TableNotFound { table_name: String },
    /// The options of a write-ahead log cannot be read.
    ParseWalOptions { wal_options: String, reason: String },
    /// Something that the operation relies on failed.
    External { reason: String },
}

/// What a procedure reports.
#[derive(Debug)]
pub enum ProcedureError {
    /// The step is to be tried again later.
    RetryLater { source: Error },
    /// The step failed.
    External { source: Error },
}

impl Error {
    /// Whether the operation may be tried again later.
    pub open spec fn retryable(self) -> bool {
        self is RetryLater
    }

    /// Whether the operation may be tried again later.
    pub fn is_retry_later(&self) -> (yes: bool)
        ensures
            yes == self.retryable(),
    {
        match self {
            Error::RetryLater { .. } => true,
            _ => false,
        }
    }
}

/// An error with the node that it came from, unless it is one to be tried again.
pub open spec fn with_peer_context(datanode: Peer, err: Error) -> Error {
    if err.retryable() {
        err
    } else {
        Error::OperateDatanode { peer: datanode, source: Box::new(err) }
    }
}

/// Adds [`Peer`] context if the error is unretryable.
pub fn add_peer_context_if_needed(datanode: Peer) -> (add: impl FnOnce(Error) -> Error)
    ensures
        forall|err: Error| call_requires(add, (err,)),
        forall|err: Error, out: Error| #[trigger]
            call_ensures(add, (err,), out) ==> out == with_peer_context(datanode, err),
{
    move |err: Error| -> (out: Error)
        ensures
            out == with_peer_context(datanode, err),
        {
            if !err.is_retry_later() {
                return Error::OperateDatanode { peer: datanode, source: Box::new(err) };
            }
            err
        }
}

/// What a procedure reports of an error.
pub open spec fn procedure_error(err: Error) -> ProcedureError {
    if err.retryable() {
        ProcedureError::RetryLater { source: err }
    } else {
        ProcedureError::External { source: err }
    }
}

/// Reports an error to be tried again as such, and any other as a failure.
pub fn handle_retry_error(e: Error) -> (reported: ProcedureError)
    ensures
        reported == procedure_error(e),
{
    if e.is_retry_later() {
        ProcedureError::RetryLater { source: e }
    } else {
        ProcedureError::External { source: e }
    }
}

/// Peer context never changes whether an error is tried again, so that a procedure decides the
/// same with it and without it.
pub proof fn law_peer_context_keeps_retry(datanode: Peer, err: Error)
    ensures
        with_peer_context(datanode, err).retryable() == err.retryable(),
        procedure_error(with_peer_context(datanode, err)) is RetryLater <==> procedure_error(
            err,
        ) is RetryLater,
{
}

/// An error to be tried again stays as it is and is reported as such. Any other gets the node as
/// context, which keeps the error, and is reported as a failure.
pub proof fn law_retry_decides(datanode: Peer, err: Error)
    ensures
        err is RetryLater ==> {
            &&& with_peer_context(datanode, err) == err
            &&& procedure_error(err) matches ProcedureError::RetryLater { source }
            &&& source == err
        },
        !(err is RetryLater) ==> {
            &&& with_peer_context(datanode, err) matches Error::OperateDatanode { peer, source }
            &&& peer == datanode
            &&& *source == err
        },
        !(err is RetryLater) ==> {
            &&& procedure_error(err) matches ProcedureError::External { source }
            &&& source == err
        },
        err.retryable() <==> err is RetryLater,
{
}

} // verus!
