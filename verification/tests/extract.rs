use cart::config::{ProxySection, AppConfig, ProxyConfig, WorkerEntry};
use cart::extract::{
    extract_request_text, has_remote_media, is_remote_url, join_parts, key_source, media_refusal, KeySource,
};

fn text(body: &str, path: &str) -> String {
    extract_request_text(body.as_bytes(), path)
}

#[test]
fn a_chat_is_keyed_by_its_messages() {
    let body = r#"{"model": "m", "messages": [{"role": "user", "content": "hi"}], "tools": [{"type": "function"}]}"#;
    assert_eq!(
        text(body, "/v1/chat/completions"),
        r#"[{"content":"hi","role":"user"}]"#
    );
    assert_eq!(text(r#"{"tools":[1],"messages":[2]}"#, "/v1/chat/completions"), "[2]");
    assert_eq!(text(r#"{"tools":[1]}"#, "/v1/chat/completions"), "");
    let body = r#"{"messages": [ {"role": "user", "content": "hi"} , 1.50 ]}"#;
    assert_eq!(text(body, "/v1/chat/completions"), r#"[{"content":"hi","role":"user"},1.5]"#);
}

#[test]
fn a_completion_is_keyed_by_its_prompt() {
    assert_eq!(text(r#"{"prompt": "Once upon a \"time\""}"#, "/v1/completions"), "Once upon a \"time\"");
    assert_eq!(text(r#"{"prompt": ["a", "b"]}"#, "/v1/completions"), "");
    assert_eq!(text(r#"{"messages": []}"#, "/v1/completions"), "");
}

#[test]
fn messages_are_keyed_by_tools_system_and_messages() {
    let body = r#"{"messages": ["m"], "system": "s", "tools": ["t"]}"#;
    assert_eq!(text(body, "/v1/messages"), r#"["t"]"s"["m"]"#);
    assert_eq!(text(r#"{"messages": ["m"], "tools": ["t"]}"#, "/v1/messages"), r#"["t"]["m"]"#);
    assert_eq!(text(body, "/v1/chat/completions"), r#"["m"]"#);
}

#[test]
fn what_cannot_be_read_has_no_key() {
    for path in ["/v1/chat/completions", "/v1/completions", "/v1/messages"] {
        assert_eq!(text("", path), "");
        assert_eq!(text("{not json", path), "");
        assert_eq!(text("[1, 2]", path), "");
        assert_eq!(text("{}", path), "");
        assert_eq!(extract_request_text(b"{\"prompt\": \"\xff\"}", path), "");
    }
    assert_eq!(text(r#"{"prompt": "p", "messages": []}"#, "/v1/embeddings"), "");
}

#[test]
fn key_sources_by_endpoint() {
    match key_source("/v1/messages") {
        KeySource::Members(keys) => assert_eq!(keys, vec!["tools", "system", "messages"]),
        other => panic!("unexpected: {:?}", other),
    }
    match key_source("/v1/chat/completions") {
        KeySource::Members(keys) => assert_eq!(keys, vec!["messages"]),
        other => panic!("unexpected: {:?}", other),
    }
    assert!(matches!(key_source("/v1/completions"), KeySource::Text(key) if key == "prompt"));
    assert!(matches!(key_source("/v1/chat/completions/"), KeySource::Nothing));
}

#[test]
fn parts_are_joined_in_their_order() {
    let parts = vec![Some("a".to_string()), None, Some("b".to_string())];
    assert_eq!(join_parts(&parts), "ab");
    assert_eq!(join_parts(&vec![None, None]), "");
}

#[test]
fn remote_addresses() {
    assert!(is_remote_url("http://example.com/cat.png"));
    assert!(is_remote_url("https://example.com/cat.png"));
    assert!(!is_remote_url("data:image/png;base64,AAAA"));
    assert!(!is_remote_url("file:///cat.png"));
    assert!(!is_remote_url("http:/"));
    // The case of a scheme does not matter.
    assert!(is_remote_url("HTTP://x/y.png"));
    assert!(is_remote_url("hTtPs://x/y.png"));
    assert!(!is_remote_url("HTTQ://x/y.png"));
    assert!(!is_remote_url("HTTP:\u{f}\u{f}x"));
}

fn media(part: &str) -> bool {
    let body = format!(r#"{{"messages": [{{"role": "user", "content": "text"}}, {{"role": "user", "content": [{}]}}]}}"#, part);
    has_remote_media(body.as_bytes())
}

#[test]
fn remote_media_are_found_in_the_parts_of_messages() {
    assert!(media(r#"{"type": "image_url", "image_url": {"url": "https://example.com/a.png"}}"#));
    assert!(media(r#"{"type": "image_url", "image_url": "http://example.com/a.png"}"#));
    assert!(media(r#"{"type": "text", "text": "x"}, {"type": "video_url", "video_url": {"url": "http://v"}}"#));
    assert!(media(r#"{"type": "audio_url", "audio_url": {"url": "http://a"}}"#));
    assert!(media(r#"{"type": "image", "source": {"type": "url", "url": "https://i"}}"#));
    assert!(!media(r#"{"type": "image_url", "image_url": {"url": "data:image/png;base64,AAAA"}}"#));
    assert!(!media(r#"{"type": "text", "text": "https://example.com"}"#));
    assert!(!media(r#"{"type": "image", "source": {"type": "base64", "data": "AAAA"}}"#));
    assert!(!media(""));
    assert!(!has_remote_media(b"{}"));
    assert!(!has_remote_media(b"nonsense"));
}

#[test]
fn remote_media_are_found_in_the_parts_of_parts() {
    let image = r#"{"type": "image", "source": {"type": "url", "url": "HTTPS://i"}}"#;
    let result = |inner: &str| format!(r#"{{"type": "tool_result", "tool_use_id": "t", "content": [{}]}}"#, inner);
    assert!(media(&result(image)));
    assert!(media(&result(&format!(r#"{{"type": "text", "text": "x"}}, {}"#, result(image)))));
    assert!(!media(&result(r#"{"type": "text", "text": "https://i"}"#)));
    assert!(!media(r#"{"type": "tool_result", "content": "https://i"}"#));
    // As deep as a body can be read.
    let mut deep = image.to_string();
    for _ in 0..60 {
        deep = result(&deep);
    }
    assert!(media(&deep));
}

fn proxy_config(remote_media_url_policy: u16) -> ProxyConfig {
    let mut config = AppConfig::with_workers(vec![WorkerEntry {
        url: "http://w0".to_string(),
        max_load: 1,
        load_penalty: 0,
    }]);
    config.proxy = ProxySection { remote_media_url_policy, ..ProxySection::default() };
    config.proxy_config()
}

#[test]
fn the_policy_decides_on_remote_media() {
    let remote = br#"{"messages": [{"content": [{"image_url": {"url": "http://x"}}]}]}"#;
    let local = br#"{"messages": [{"content": [{"image_url": {"url": "data:x"}}]}]}"#;
    for path in ["/v1/chat/completions", "/v1/messages"] {
        assert_eq!(media_refusal(&proxy_config(200), path, remote), None);
        assert_eq!(media_refusal(&proxy_config(403), path, remote), Some(403));
        assert_eq!(media_refusal(&proxy_config(403), path, local), None);
    }
    assert_eq!(media_refusal(&proxy_config(403), "/v1/embeddings", remote), None);
}
