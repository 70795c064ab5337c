use vstd::prelude::*;

use crate::authority::Authority;
use crate::data::{Data, DataRequest, DestinationAddress, InterfaceError, ResponseError, SourceAddress};
use crate::name_type::NameType;

verus! {

/// A specific request to be carried out by routing.
#[derive(Clone, Debug)]
pub enum MethodCall {
    /// Have `destination` handle a put of `content`.
    Put { destination: NameType, content: Data },
    /// Retrieve the data named by the request from the network.
    Get { name: NameType, data_request: DataRequest },
    /// Have `destination` handle a post of `content`.
    Post { destination: NameType, content: Data },
    /// Delete the data stored under `name`.
    Delete { name: NameType, data: Data },
    /// Send a group-internal refresh payload.
    Refresh { type_tag: u64, from_group: NameType, payload: Vec<u8> },
    /// Forward the request to `destination` for further handling.
    Forward { destination: NameType },
    /// Reply with `data`.
    Reply { data: Data },
}

/// The answer to a get request from the actions a node found for it: those
/// actions, or `InterfaceError::Abort` when there is neither data to reply with
/// nor an address to forward to.
pub fn get_outcome(actions: Vec<MethodCall>) -> (r: Result<Vec<MethodCall>, InterfaceError>)
    ensures
        actions@.len() == 0 <==> r is Err,
        r matches Err(e) ==> e is Abort,
        r matches Ok(v) ==> v@ == actions@,
{
    if actions.len() == 0 {
        Err(InterfaceError::Abort)
    } else {
        Ok(actions)
    }
}

/// The methods a user of a routing node implements: one entry point per kind
/// of message, each returning the follow-up actions.
pub trait Interface: Sync + Send {
    /// Depending on `our_authority` and `from_authority`, returns the data or
    /// the address of a node that may store it. A node that can give neither
    /// returns an `InterfaceError`, never an empty list.
    fn handle_get(
        &mut self,
        data_request: DataRequest,
        our_authority: Authority,
        from_authority: Authority,
        from_address: SourceAddress,
    ) -> (r: Result<Vec<MethodCall>, InterfaceError>)
        ensures
            r matches Ok(v) ==> v@.len() > 0,
    ;

    /// Depending on `our_authority` and `from_authority`, stores the data on
    /// this node or gives an address for further handling.
    fn handle_put(
        &mut self,
        our_authority: Authority,
        from_authority: Authority,
        from_address: SourceAddress,
        dest_address: DestinationAddress,
        data: Data,
    ) -> Result<Vec<MethodCall>, InterfaceError>;

    /// Depending on `our_authority` and `from_authority`, handles a post on
    /// this node or gives an address for further handling.
    fn handle_post(
        &mut self,
        our_authority: Authority,
        from_authority: Authority,
        from_address: SourceAddress,
        dest_address: DestinationAddress,
        data: Data,
    ) -> Result<Vec<MethodCall>, InterfaceError>;

    /// Handles group-internal messages triggered by churn, once enough
    /// payloads for (`type_tag`, `from_group`) were collected.
    fn handle_refresh(&mut self, type_tag: u64, from_group: NameType, payloads: Vec<Vec<u8>>);

    /// Handles the response to a get request.
    fn handle_get_response(&mut self, from_address: NameType, response: Data) -> Vec<MethodCall>;

    /// Handles the response to a put request.
    fn handle_put_response(
        &mut self,
        from_authority: Authority,
        from_address: SourceAddress,
        response: ResponseError,
    ) -> Vec<MethodCall>;

    /// Handles the response to a post request.
    fn handle_post_response(
        &mut self,
        from_authority: Authority,
        from_address: SourceAddress,
        response: ResponseError,
    ) -> Vec<MethodCall>;

    /// Handles a change of the close group: the actions that update the
    /// relevant nodes.
    fn handle_churn(&mut self, close_group: Vec<NameType>) -> Vec<MethodCall>;

    /// Attempts to retrieve data from a cache.
    fn handle_cache_get(
        &mut self,
        data_request: DataRequest,
        data_location: NameType,
        from_address: NameType,
    ) -> Result<MethodCall, InterfaceError>;

    /// Attempts to store data in a cache.
    fn handle_cache_put(
        &mut self,
        from_authority: Authority,
        from_address: NameType,
        data: Data,
    ) -> Result<MethodCall, InterfaceError>;
}

/// Creates the node logic.
pub trait CreatePersonas<F: Interface>: Sync + Send {
    fn create_personas(&mut self) -> F;
}

} // verus!
