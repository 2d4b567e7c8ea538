//! Decisions of the subscription-confirmation flow.
//!
//! The surrounding HTTP handler and its store queries are external
//! collaborators: they look a subscriber id up by the submitted token and
//! mark the subscriber confirmed. What is decided from those results —
//! which error a failed confirmation reports, and with which status —
//! lives here.

use crate::queue::StoreError;
use vstd::prelude::*;

verus! {

/// The query parameters of a confirmation request.
pub struct Parameters {
    pub subscription_token: String,
}

/// Why a confirmation request failed.
#[derive(Debug, PartialEq, Eq, Clone, Copy)]
pub enum ConfirmError {
    /// A store query failed; nothing is known about the token.
    UnexpectedError,
    /// No subscriber is associated with the provided token.
    UnknownToken,
}

impl ConfirmError {
    /// The HTTP status reported for this failure: an unknown token is the
    /// caller's fault, anything unexpected is the server's.
    pub fn status_code(&self) -> (code: u16)
        ensures
            *self is UnexpectedError ==> code == 500,
            *self is UnknownToken ==> code == 401,
    {
        match self {
            ConfirmError::UnexpectedError => 500,
            ConfirmError::UnknownToken => 401,
        }
    }
}

/// Which subscriber a confirmation request confirms, from the result of
/// the token lookup: a failed lookup is unexpected, a token without a
/// subscriber is unknown, and otherwise the found subscriber is the one.
pub fn subscriber_to_confirm(lookup: Result<Option<u128>, StoreError>) -> (r: Result<
    u128,
    ConfirmError,
>)
    ensures
        match lookup {
            Ok(Some(id)) => r == Ok::<u128, ConfirmError>(id),
            Ok(None) => r == Err::<u128, ConfirmError>(ConfirmError::UnknownToken),
            Err(_) => r == Err::<u128, ConfirmError>(ConfirmError::UnexpectedError),
        },
{
    match lookup {
        Ok(Some(id)) => Ok(id),
        Ok(None) => Err(ConfirmError::UnknownToken),
        Err(_) => Err(ConfirmError::UnexpectedError),
    }
}

/// The outcome reported once the subscriber's status was to be updated:
/// success exactly when the update reached the store.
pub fn confirm_outcome(update: Result<(), StoreError>) -> (r: Result<(), ConfirmError>)
    ensures
        update is Ok <==> r is Ok,
        update is Err ==> r == Err::<(), ConfirmError>(ConfirmError::UnexpectedError),
{
    match update {
        Ok(()) => Ok(()),
        Err(_) => Err(ConfirmError::UnexpectedError),
    }
}

} // verus!
