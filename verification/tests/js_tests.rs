use senime::js_bridge::{content_of_reply, content_of_response, encrypt, JSAction, JSSettings};

#[test]
fn test_encrypt() {
    let body = r#"{"competitionType":0,"snumflag":"1","from":"web","timestamp":1784350730,"version":"v2.1.6","subversions":17108,"token":"7d670b541f0b8"}"#.to_string();
    let expected = "0hv2w3UU00zcNMoK7Ic7oMTP9yGUa1M0Ng7JcNzRli0vJv9BOa8WoM7qMYZhXVs1QsP+zpK/qO5zsQWUulXhrJ6F5AOQcbT/8zcEXRduunS2/PgY6vOFjT/Z7GRJEtrvwLRo8kV6ij8l8U5Uda+0x8/XI2kBUCWyo1oqxPJVGJRVLMVSopKJt5Q/gIxXK65a";
    let result = encrypt(body);
    assert_eq!(result, expected);
}

#[test]
fn encrypt_pads_to_blocks() {
    // Sixteen bytes of plaintext make one block: 24 base64 characters.
    assert_eq!(encrypt("0123456789abcdef".to_string()).len(), 24);
    assert_eq!(encrypt("x".to_string()).len(), 24);
    assert_eq!(encrypt("0123456789abcdefg".to_string()).len(), 44);
    assert_eq!(encrypt(String::new()), "");
}

#[test]
fn action_names() {
    assert_eq!(JSAction::parse("random"), Ok(JSAction::Random));
    assert_eq!(JSAction::parse("DAILY"), Ok(JSAction::Daily));
    assert_eq!("Daily".parse::<JSAction>(), Ok(JSAction::Daily));
    assert_eq!(
        JSAction::parse("weekly"),
        Err("无效的 js-action: weekly，应为 random 或 daily".to_string())
    );
}

#[test]
fn settings_defaults() {
    let s = JSSettings::default();
    assert_eq!(s.ime, "五笔字形");
    assert_eq!(s.subversions, 17108);
    assert_eq!(s.version, "v2.1.6");
    assert_eq!(s.from, "web");
    assert!(s.token.is_empty());
}

#[test]
fn reply_gives_daily_title_and_content() {
    let body = r#"{"error":0,"msg":{"a_name":"标题","a_content":"正文","name":"x","content":"y"}}"#;
    let c = content_of_response(body).unwrap();
    assert_eq!((c.title.as_str(), c.content.as_str()), ("标题", "正文"));
}

#[test]
fn reply_falls_back_to_name_and_content() {
    let body = r#"{"error":0,"msg":{"name":"随机","content":"文字","a_name":7}}"#;
    let c = content_of_response(body).unwrap();
    assert_eq!((c.title.as_str(), c.content.as_str()), ("随机", "文字"));
    let c = content_of_response(r#"{"error":0}"#).unwrap();
    assert_eq!((c.title.as_str(), c.content.as_str()), ("", ""));
}

#[test]
fn reply_with_error_code_is_refused() {
    let api = "JS bridge API 错误: API 返回非零错误码";
    assert_eq!(content_of_response(r#"{"error":1,"msg":{"name":"a"}}"#).unwrap_err(), api);
    assert_eq!(content_of_response(r#"{"msg":{"name":"a"}}"#).unwrap_err(), api);
    assert_eq!(content_of_response(r#"{"error":"0"}"#).unwrap_err(), api);
    assert_eq!(content_of_response(r#"{"error":0.0}"#).unwrap_err(), api);
}

#[test]
fn reply_that_is_not_json_is_refused() {
    let e = content_of_response("not json").unwrap_err();
    assert!(e.starts_with("JS bridge JSON 解析错误: "));
    assert!(e.len() > "JS bridge JSON 解析错误: ".len());
}

#[test]
fn reply_fields_decide_the_text() {
    let s = |x: &str| Some(x.to_string());
    let c = content_of_reply(Some(0), None, s("n"), s("ac"), s("c")).unwrap();
    assert_eq!((c.title.as_str(), c.content.as_str()), ("n", "ac"));
    assert!(content_of_reply(Some(2), s("a"), None, None, None).is_err());
    assert!(content_of_reply(None, s("a"), None, None, None).is_err());
}
