use table_db::config_query::{reply_to_query, QueryAnswer, QueryReply, ERROR_CODE, SUCCESS_CODE};

#[test]
fn codes_of_replies() {
    assert_eq!(SUCCESS_CODE, 200);
    assert_eq!(ERROR_CODE, 500);
}

#[test]
fn reply_with_content_carries_the_tag() {
    let reply = reply_to_query(QueryAnswer::Data("a=1".to_string()), Some("blue".to_string()));
    assert_eq!(
        reply,
        QueryReply {
            result_code: 200,
            error_code: 0,
            message: None,
            content: "a=1".to_string(),
            tag: Some("blue".to_string()),
        }
    );
    let plain = reply_to_query(QueryAnswer::Data(String::new()), None);
    assert_eq!(plain.result_code, 200);
    assert_eq!(plain.tag, None);
}

#[test]
fn reply_for_a_missing_entry() {
    let reply = reply_to_query(QueryAnswer::Missing, Some("blue".to_string()));
    assert_eq!(
        reply,
        QueryReply {
            result_code: 500,
            error_code: 500,
            message: Some("config data not exist".to_string()),
            content: String::new(),
            tag: None,
        }
    );
}

#[test]
fn reply_for_a_query_that_was_not_delivered() {
    let reply = reply_to_query(QueryAnswer::Undelivered("mailbox closed".to_string()), None);
    assert_eq!(reply.result_code, 500);
    assert_eq!(reply.error_code, 500);
    assert_eq!(reply.message, Some("mailbox closed".to_string()));
    assert_eq!(reply.content, "");
    assert_eq!(reply.tag, None);
}
