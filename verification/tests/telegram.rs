use rustclaw::channels::telegram::{
    api_url, get_me, get_updates, incoming, next_offset, reply_body, request_timeout_secs,
    send_request, sent, split_message, token_missing, typing_request, updates_request, Incoming,
    MAX_MESSAGE_CHARS,
};
use rustclaw::json::{parse, Json};

fn json(s: &str) -> Json {
    parse(s).unwrap()
}

#[test]
fn a_short_reply_is_sent_as_one_message() {
    assert_eq!(split_message("hola"), vec!["hola".to_string()]);
}

#[test]
fn a_long_reply_is_split_within_telegrams_limit() {
    let text: String = (0..1000).map(|i| format!("line {i}\n")).collect();
    let chunks = split_message(&text);
    assert!(chunks.len() > 1);
    for c in &chunks {
        assert!(c.chars().count() <= MAX_MESSAGE_CHARS, "chunk over the limit");
    }
    assert_eq!(chunks.concat(), text, "splitting must not lose or reorder text");
}

#[test]
fn a_single_over_long_line_is_still_broken_up() {
    let text = "x".repeat(MAX_MESSAGE_CHARS * 2 + 50);
    let chunks = split_message(&text);
    assert!(chunks.len() >= 3);
    for c in &chunks {
        assert!(c.chars().count() <= MAX_MESSAGE_CHARS);
    }
    assert_eq!(chunks.concat(), text);
}

#[test]
fn multibyte_text_is_counted_in_characters_not_bytes() {
    let text = "á".repeat(MAX_MESSAGE_CHARS - 1);
    assert_eq!(split_message(&text).len(), 1, "counted bytes instead of chars");
}

#[test]
fn a_text_message_is_said_and_anything_else_is_not() {
    let say = json(r#"{"update_id":5,"message":{"chat":{"id":7},"text":"hola"}}"#);
    assert_eq!(incoming(&say, &vec![]), Incoming::Say { chat_id: 7, text: "hola".into() });
    assert_eq!(incoming(&say, &vec![7]), Incoming::Say { chat_id: 7, text: "hola".into() });
    assert_eq!(incoming(&say, &vec![8]), Incoming::NotAllowed { chat_id: 7 });

    let photo = json(r#"{"message":{"chat":{"id":-7}}}"#);
    assert_eq!(incoming(&photo, &vec![8]), Incoming::NotText { chat_id: -7 });
    assert_eq!(incoming(&json(r#"{"message":{"text":"x"}}"#), &vec![]), Incoming::Nothing);
    assert_eq!(incoming(&json("{}"), &vec![]), Incoming::Nothing);
}

#[test]
fn the_offset_moves_past_what_was_seen_and_never_back() {
    assert_eq!(next_offset(0, &json(r#"{"update_id":5}"#)), 6);
    assert_eq!(next_offset(9, &json(r#"{"update_id":5}"#)), 9);
    assert_eq!(next_offset(9, &json("{}")), 9);
}

#[test]
fn replies_of_the_api_are_read() {
    assert_eq!(get_me(&json(r#"{"ok":true,"result":{"username":"claw"}}"#)), Ok("claw".into()));
    assert_eq!(get_me(&json(r#"{"ok":true}"#)), Ok("unknown".into()));
    assert_eq!(
        get_me(&json(r#"{"ok":false}"#)),
        Err("getMe rejected the token: {\"ok\":false}".into())
    );
    assert_eq!(
        get_updates(&json(r#"{"ok":true,"result":[1]}"#)),
        Ok(vec![Json::from_u64(1)])
    );
    assert_eq!(get_updates(&json(r#"{"ok":true}"#)), Ok(vec![]));
    assert_eq!(get_updates(&json("{}")), Err("getUpdates returned {}".into()));
    assert_eq!(sent(&json(r#"{"ok":true}"#)), Ok(()));
    assert_eq!(sent(&json("null")), Err("sendMessage returned null".into()));
}

#[test]
fn requests_carry_what_the_api_asks_for() {
    assert_eq!(
        updates_request(3, 50).to_text(),
        r#"{"allowed_updates":["message"],"offset":3,"timeout":50}"#
    );
    assert_eq!(send_request(-1, "a\nb").to_text(), r#"{"chat_id":-1,"text":"a\nb"}"#);
    assert_eq!(typing_request(2).to_text(), r#"{"action":"typing","chat_id":2}"#);
    assert_eq!(api_url("T"), "https://api.telegram.org/botT");
    assert_eq!(request_timeout_secs(50), 65);
    assert_eq!(token_missing("E"), "set E to your bot token (config: telegram.token_env)");
}

#[test]
fn an_empty_reply_is_said_to_be_one() {
    assert_eq!(reply_body(Ok(" \n".into())), "(no reply)");
    assert_eq!(reply_body(Ok(" x ".into())), " x ");
    assert_eq!(reply_body(Err("e".into())), "error: e");
}

#[test]
fn a_reply_is_broken_between_lines_and_only_where_it_has_to_be() {
    let line = |n: usize| format!("{}\n", "x".repeat(n - 1));
    let text = format!("{}{}{}{}", line(3000), line(1000), line(1), line(3999));
    let chunks = split_message(&text);
    assert_eq!(chunks, vec![line(3000) + &line(1000), line(1) + &line(3999)]);
    let text = format!("{}{}{}", line(3000), line(1001), "y".repeat(10));
    let chunks = split_message(&text);
    assert_eq!(chunks, vec![line(3000), line(1001) + &"y".repeat(10)]);
}
