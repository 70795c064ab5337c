use vstd::prelude::*;

use crate::data::{Data, ResponseError};
use crate::name_type::NameType;

verus! {

/// The methods a user of a routing client implements.
pub trait Interface: Sync + Send {
    /// Consumes the data of a response.
    fn handle_get_response(&mut self, data_location: NameType, data: Data);

    /// Handles the result of a put request.
    fn handle_put_response(&mut self, response_error: ResponseError, request_data: Data);

    /// Handles the result of a post request.
    fn handle_post_response(&mut self, response_error: ResponseError, request_data: Data);

    /// Handles the result of a delete request.
    fn handle_delete_response(&mut self, response_error: ResponseError, request_data: Data);
}

} // verus!
