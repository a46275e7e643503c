//! Which client ids and subscriptions are accepted.
use super::errors::{view_result, RouterError, RouterErrorView};
use super::messages::{Connection, ConnectionState};
use crate::protocol::{Filter, QoS};
use crate::text;
use vstd::prelude::*;

verus! {

/// Whether a client id is free of the characters that mean something in
/// filters and topics.
pub open spec fn clientid_valid(client_id: Seq<char>) -> bool {
    &&& !client_id.contains('+')
    &&& !client_id.contains('$')
    &&& !client_id.contains('#')
    &&& !client_id.contains('/')
}

pub fn validate_clientid(client_id: &str) -> (result: Result<(), RouterError>)
    ensures
        result is Ok <==> clientid_valid(client_id@),
        result matches Err(error) ==> error@ == RouterErrorView::InvalidClientId(client_id@),
{
    if text::contains(client_id, '+') || text::contains(client_id, '$') || text::contains(
        client_id,
        '#',
    ) || text::contains(client_id, '/') {
        return Err(RouterError::InvalidClientId(client_id.to_owned()));
    }
    Ok(())
}

/// Whether something lies outside the prefix that the tenant of a connection is
/// held to.
pub open spec fn outside_tenant(
    connection: ConnectionState,
    validate_tenant_prefix: bool,
    name: Seq<char>,
) -> bool {
    &&& validate_tenant_prefix
    &&& connection.tenant_prefix is Some
    &&& !connection.tenant_prefix->0@.is_prefix_of(name)
}

/// What a client is answered that wants to subscribe.
pub open spec fn subscription_verdict(
    connection: ConnectionState,
    validate_tenant_prefix: bool,
    filter: Filter,
) -> Result<(), RouterErrorView> {
    if outside_tenant(connection, validate_tenant_prefix, filter.path@) {
        Err(RouterErrorView::InvalidFilterPrefix(filter.path@))
    } else if filter.qos is ExactlyOnce {
        Err(RouterErrorView::UnsupportedQoS(filter.qos))
    } else if filter.path@.len() > 0 && filter.path@[0] == '$' {
        Err(RouterErrorView::InvalidFilterPrefix(filter.path@))
    } else {
        Ok(())
    }
}

pub fn validate_subscription(
    connection: &Connection,
    validate_tenant_prefix: bool,
    filter: &Filter,
) -> (result: Result<(), RouterError>)
    ensures
        view_result(result) == subscription_verdict(connection@, validate_tenant_prefix, *filter),
{
    if validate_tenant_prefix {
        if let Some(tenant_prefix) = &connection.tenant_prefix {
            if !text::starts_with(filter.path.as_str(), tenant_prefix.as_str()) {
                return Err(RouterError::InvalidFilterPrefix(filter.path.clone()));
            }
        }
    }
    if filter.qos == QoS::ExactlyOnce {
        return Err(RouterError::UnsupportedQoS(filter.qos));
    }
    let chars = text::characters(filter.path.as_str());
    if chars.len() > 0 && chars[0] == '$' {
        return Err(RouterError::InvalidFilterPrefix(filter.path.clone()));
    }
    Ok(())
}

} // verus!
