//! What can go wrong in a router.
use crate::protocol::QoS;
use std::str::Utf8Error;
use vstd::prelude::*;

verus! {

#[derive(Debug)]
pub enum RouterError {
    /// All links are gone while the router waits for one.
    Recv,
    /// Nothing is there to be received.
    TryRecv,
    Disconnected,
    NonUtf8Topic(Utf8Error),
    /// The prefix of the tenant, and the topic.
    BadTenant(String, String),
    NoMatchingFilters(String),
    UnsupportedQoS(QoS),
    InvalidFilterPrefix(String),
    InvalidClientId(String),
}

#[verifier::ext_equal]
pub enum RouterErrorView {
    Recv,
    TryRecv,
    Disconnected,
    NonUtf8Topic(Utf8Error),
    BadTenant(Seq<char>, Seq<char>),
    NoMatchingFilters(Seq<char>),
    UnsupportedQoS(QoS),
    InvalidFilterPrefix(Seq<char>),
    InvalidClientId(Seq<char>),
}

impl View for RouterError {
    type V = RouterErrorView;

    open spec fn view(&self) -> RouterErrorView {
        match *self {
            RouterError::Recv => RouterErrorView::Recv,
            RouterError::TryRecv => RouterErrorView::TryRecv,
            RouterError::Disconnected => RouterErrorView::Disconnected,
            RouterError::NonUtf8Topic(error) => RouterErrorView::NonUtf8Topic(error),
            RouterError::BadTenant(prefix, topic) => RouterErrorView::BadTenant(prefix@, topic@),
            RouterError::NoMatchingFilters(topic) => RouterErrorView::NoMatchingFilters(topic@),
            RouterError::UnsupportedQoS(qos) => RouterErrorView::UnsupportedQoS(qos),
            RouterError::InvalidFilterPrefix(filter) => RouterErrorView::InvalidFilterPrefix(
                filter@,
            ),
            RouterError::InvalidClientId(client_id) => RouterErrorView::InvalidClientId(
                client_id@,
            ),
        }
    }
}

/// A result, seen through the view of the error.
pub open spec fn view_result<T>(result: Result<T, RouterError>) -> Result<T, RouterErrorView> {
    match result {
        Ok(value) => Ok(value),
        Err(error) => Err(error@),
    }
}

} // verus!
