use vstd::prelude::*;

use crate::name_type::NameType;

verus! {

/// A content-addressed value; it is handled by its name, never by its contents.
#[derive(Clone, Debug)]
pub struct Data {
    pub name: NameType,
    pub content: Vec<u8>,
}

/// A request for the value stored under a name.
#[derive(Clone, Copy, Debug)]
pub struct DataRequest {
    pub name: NameType,
    pub type_tag: u64,
}

/// Routing envelope of the original requester.
#[derive(Clone, Copy, Debug)]
pub struct SourceAddress {
    pub from_node: NameType,
    pub from_group: Option<NameType>,
    pub reply_to: Option<NameType>,
}

/// Routing envelope of the intended final handler.
#[derive(Clone, Copy, Debug)]
pub struct DestinationAddress {
    pub dest: NameType,
    pub reply_to: Option<NameType>,
}

/// Failure reported in a response to a request.
#[derive(Clone, Debug)]
pub enum ResponseError {
    NoData,
    InvalidRequest,
    FailedToStoreData(Data),
}

/// A dispatcher could neither resolve a request nor forward it.
#[derive(Clone, Debug)]
pub enum InterfaceError {
    Abort,
    Response(ResponseError),
}

} // verus!
