use vstd::prelude::*;
use crate::builder::{GroupMetadata, StoreError};

verus! {

/// Body of a reply to a list call.
pub struct VaultListMetadata {
    pub keys: Vec<String>,
}

pub struct VaultListMetadataResponse {
    pub data: VaultListMetadata,
    pub request_id: String,
}

/// Body of a reply to a group metadata call.
pub struct VaultGetMetadata {
    pub created_time: String,
    pub updated_time: String,
}

pub struct VaultGetMetadataResponse {
    pub data: VaultGetMetadata,
    pub request_id: String,
}

/// Body of a reply to a group data call: the key-value pairs in the order
/// the reply gave them.
pub struct VaultGetData {
    pub data: Vec<(String, String)>,
}

pub struct VaultGetDataResponse {
    pub data: VaultGetData,
    pub request_id: String,
}

/// How the status of a store reply is taken.
#[derive(Clone, Copy, Debug, PartialEq, Eq, Structural)]
pub enum ReplyStatus {
    /// A success: the body holds the answer.
    Body,
    /// Not found: the path holds nothing.
    Absent,
    /// Any other status.
    Failed,
}

pub open spec fn status_class(status: u16) -> ReplyStatus {
    if 200 <= status <= 299 {
        ReplyStatus::Body
    } else if status == 404 {
        ReplyStatus::Absent
    } else {
        ReplyStatus::Failed
    }
}

pub fn classify_status(status: u16) -> (r: ReplyStatus)
    ensures
        r == status_class(status),
{
    if status >= 200 && status <= 299 {
        ReplyStatus::Body
    } else if status == 404 {
        ReplyStatus::Absent
    } else {
        ReplyStatus::Failed
    }
}

/// The names of a list reply: those of its body on success, none when the
/// path is absent, and an error otherwise.
pub fn listed_names(status: u16, body: Option<VaultListMetadataResponse>) -> (r: Result<
    Vec<String>,
    StoreError,
>)
    ensures
        status_class(status) == ReplyStatus::Absent ==> (r matches Ok(v) && v@.len() == 0),
        status_class(status) == ReplyStatus::Failed ==> r is Err,
        status_class(status) == ReplyStatus::Body ==> match body {
            Some(b) => (r matches Ok(v) && v@ == b.data.keys@),
            None => r is Err,
        },
{
    match classify_status(status) {
        ReplyStatus::Absent => Ok(Vec::new()),
        ReplyStatus::Failed => Err(StoreError { message: "unexpected status".to_owned() }),
        ReplyStatus::Body => match body {
            Some(b) => Ok(b.data.keys),
            None => Err(StoreError { message: "malformed listing".to_owned() }),
        },
    }
}

/// The metadata of a group reply; a group must exist, so anything but a
/// success with a body is an error.
pub fn group_metadata(status: u16, body: Option<VaultGetMetadataResponse>) -> (r: Result<
    GroupMetadata,
    StoreError,
>)
    ensures
        r is Ok <==> (status_class(status) == ReplyStatus::Body && body is Some),
        r matches Ok(m) ==> m.created_time == body->0.data.created_time && m.updated_time
            == body->0.data.updated_time,
{
    match classify_status(status) {
        ReplyStatus::Body => match body {
            Some(b) => Ok(
                GroupMetadata {
                    created_time: b.data.created_time,
                    updated_time: b.data.updated_time,
                },
            ),
            None => Err(StoreError { message: "malformed metadata".to_owned() }),
        },
        _ => Err(StoreError { message: "unexpected status".to_owned() }),
    }
}

/// The key-value pairs of a group data reply, in the order given; anything
/// but a success with a body is an error.
pub fn group_pairs(status: u16, body: Option<VaultGetDataResponse>) -> (r: Result<
    Vec<(String, String)>,
    StoreError,
>)
    ensures
        r is Ok <==> (status_class(status) == ReplyStatus::Body && body is Some),
        r matches Ok(v) ==> v == body->0.data.data,
{
    match classify_status(status) {
        ReplyStatus::Body => match body {
            Some(b) => Ok(b.data.data),
            None => Err(StoreError { message: "malformed data".to_owned() }),
        },
        _ => Err(StoreError { message: "unexpected status".to_owned() }),
    }
}

} // verus!
