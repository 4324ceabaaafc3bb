//! The reply to a query for one configuration entry.
//!
//! The query is answered elsewhere, by whoever keeps the configuration.
//! What is decided here is the reply that goes back to the client for each
//! answer: the codes, the message, the content and the tag.

use vstd::prelude::*;
use vstd::string::*;

verus! {

/// The result code of a reply that carries what was asked for.
pub const SUCCESS_CODE: u16 = 200;

/// The result code and the error code of a reply that carries nothing.
pub const ERROR_CODE: u16 = 500;

/// What came back for a query.
#[derive(Debug, Clone, PartialEq, Eq)]
pub enum QueryAnswer {
    /// The entry exists; this is its content.
    Data(String),
    /// There is no such entry.
    Missing,
    /// The query could not be delivered; this is why.
    Undelivered(String),
}

/// The reply to a query.
#[derive(Debug, Clone, PartialEq, Eq)]
pub struct QueryReply {
    pub result_code: u16,
    pub error_code: u16,
    pub message: Option<String>,
    pub content: String,
    pub tag: Option<String>,
}

/// The text of an optional string.
pub open spec fn opt_text(s: Option<String>) -> Option<Seq<char>> {
    match s {
        Some(text) => Some(text@),
        None => None,
    }
}

/// The reply for an entry that exists: success, the content, and the tag
/// that the query carried.
pub open spec fn is_data_reply(reply: QueryReply, content: Seq<char>, tag: Option<Seq<char>>) -> bool {
    &&& reply.result_code == SUCCESS_CODE
    &&& reply.error_code == 0
    &&& reply.message is None
    &&& reply.content@ == content
    &&& opt_text(reply.tag) == tag
}

/// The reply that carries nothing but the reason why.
pub open spec fn is_error_reply(reply: QueryReply, message: Seq<char>) -> bool {
    &&& reply.result_code == ERROR_CODE
    &&& reply.error_code == ERROR_CODE
    &&& opt_text(reply.message) == Some(message)
    &&& reply.content@ == Seq::<char>::empty()
    &&& reply.tag is None
}

/// The reply to a query that carried `tag` and was answered with `answer`.
pub fn reply_to_query(answer: QueryAnswer, tag: Option<String>) -> (reply: QueryReply)
    ensures
        match answer {
            QueryAnswer::Data(content) => is_data_reply(reply, content@, opt_text(tag)),
            QueryAnswer::Missing => is_error_reply(reply, "config data not exist"@),
            QueryAnswer::Undelivered(reason) => is_error_reply(reply, reason@),
        },
{
    match answer {
        QueryAnswer::Data(content) => QueryReply {
            result_code: SUCCESS_CODE,
            error_code: 0,
            message: None,
            content,
            tag,
        },
        QueryAnswer::Missing => QueryReply {
            result_code: ERROR_CODE,
            error_code: ERROR_CODE,
            message: Some(String::from_str("config data not exist")),
            content: String::new(),
            tag: None,
        },
        QueryAnswer::Undelivered(reason) => QueryReply {
            result_code: ERROR_CODE,
            error_code: ERROR_CODE,
            message: Some(reason),
            content: String::new(),
            tag: None,
        },
    }
}

} // verus!
