use ghostlink::binary32::Binary32;
use ghostlink::stream::{read_document, LineEvent, StreamDecoder};
use ghostlink::vllm::{
    health_of_models, normalize_base_url, stream_failure, succeeded, ChatChoice,
    ChatCompletionResponse, ChatMessage, HealthStep, HttpMethod, ModelCard, ModelListResponse, Sampling, VllmClient, VllmFunctionCall,
    VllmToolCall,
};
use serde_json::Value;

fn value(text: &str) -> Value {
    serde_json::from_str(text).unwrap()
}

fn sampling(temperature: f32, top_p: f32, top_k: usize, penalty: f32) -> Sampling {
    Sampling {
        temperature: Binary32::from_bits(temperature.to_bits()),
        top_p: Binary32::from_bits(top_p.to_bits()),
        top_k,
        repetition_penalty: Binary32::from_bits(penalty.to_bits()),
        max_tokens: 256,
    }
}

fn number(x: Binary32) -> Value {
    Value::from(f32::from_bits(x.to_bits()))
}

fn client() -> VllmClient {
    VllmClient::new("http://host:8000/v1/".to_string(), Some("secret".to_string()))
}

#[test]
fn strips_trailing_v1_segment() {
    assert_eq!(
        normalize_base_url("http://127.0.0.1:8000/v1/"),
        "http://127.0.0.1:8000"
    );
    assert_eq!(
        normalize_base_url("http://127.0.0.1:8000"),
        "http://127.0.0.1:8000"
    );
}

#[test]
fn addresses_are_normalized() {
    assert_eq!(normalize_base_url(" \u{3000}http://h/v1/// \u{85}\n"), "http://h");
    assert_eq!(normalize_base_url("http://h/v1/v1"), "http://h/v1");
    assert_eq!(normalize_base_url("http://h//v1"), "http://h/");
    assert_eq!(normalize_base_url("http://h/v12"), "http://h/v12");
    assert_eq!(normalize_base_url("http://h/ "), "http://h");
    assert_eq!(normalize_base_url("/v1"), "");
    assert_eq!(normalize_base_url("v1"), "v1");
    assert_eq!(normalize_base_url(" / "), "");
    assert_eq!(normalize_base_url(""), "");
}

#[test]
fn white_space_is_what_the_standard_library_trims() {
    for n in 0..0x11_0000u32 {
        if let Some(c) = char::from_u32(n) {
            assert_eq!(ghostlink::text::is_space_char(c), c.is_whitespace(), "{n:#x}");
        }
    }
}

#[test]
fn what_surrounds_an_address_is_dropped() {
    for base in ["http://h", "http://h:1/x", "h", "//"] {
        for slashes in ["", "/", "///"] {
            assert_eq!(normalize_base_url(&format!("{base}/v1{slashes}")), base);
            assert_eq!(
                normalize_base_url(&format!("{base}{slashes}")),
                normalize_base_url(base)
            );
            assert_eq!(
                normalize_base_url(&format!("\t {base}{slashes}\u{2028}")),
                normalize_base_url(base)
            );
        }
    }
}

#[test]
fn blank_keys_are_dropped() {
    let with = |key: Option<&str>| VllmClient::new("h".into(), key.map(String::from)).api_key;
    assert_eq!(with(None), None);
    assert_eq!(with(Some("")), None);
    assert_eq!(with(Some(" \t\u{a0}")), None);
    assert_eq!(with(Some(" k ")), Some(" k ".to_string()));
}

#[test]
fn keys_go_into_the_authorization_header() {
    let header = |key: &str| VllmClient::new("h".into(), Some(key.into())).authorization();
    assert_eq!(header("abc"), Some("Bearer abc".to_string()));
    assert_eq!(header("a\tb"), Some("Bearer a\tb".to_string()));
    assert_eq!(header("sch\u{fc}ssel"), Some("Bearer sch\u{fc}ssel".to_string()));
    assert_eq!(header("a\nb"), None);
    assert_eq!(header("a\u{7f}b"), None);
    assert_eq!(VllmClient::new("h".into(), None).authorization(), None);
}

#[test]
fn health_falls_back_to_the_models() {
    let c = client();
    assert_eq!(c.health_request().url, "http://host:8000/health");
    assert!(matches!(c.health(Some(200)), HealthStep::Known(true)));
    assert!(matches!(c.health(Some(299)), HealthStep::Known(true)));
    assert!(matches!(c.health(Some(300)), HealthStep::Known(false)));
    assert!(matches!(c.health(Some(199)), HealthStep::Known(false)));
    assert!(matches!(c.health(Some(503)), HealthStep::Known(false)));
    match c.health(None) {
        HealthStep::Ask(request) => {
            assert_eq!(request.url, "http://host:8000/v1/models");
            assert_eq!(request.authorization, Some("Bearer secret".to_string()));
            assert!(request.body.is_none());
            assert_eq!(request.method, HttpMethod::Get);
        }
        HealthStep::Known(_) => panic!("no answer is known"),
    }
    assert_eq!(c.list_models_request().url, "http://host:8000/v1/models");
}

#[test]
fn generate_sends_one_message_of_the_user() {
    let raw = sampling(3.5, -0.25, 0, 1.5);
    let request = client().generate_request("m", "hello \"you\"", &raw, number);
    assert_eq!(request.url, "http://host:8000/v1/chat/completions");
    assert_eq!(
        request.body.unwrap(),
        value(
            r#"{"model":"m","messages":[{"role":"user","content":"hello \"you\""}],"stream":false,
               "temperature":2.0,"top_p":0.0,"top_k":1,"repetition_penalty":1.5,"max_tokens":256}"#
        )
    );
}

#[test]
fn chat_sends_tools_and_format_only_when_given() {
    let s = sampling(0.5, 1.5, 1000, f32::NAN);
    let messages = || vec![value(r#"{"role":"system","content":"x"}"#)];
    let plain = client().chat_request("m", messages(), &s, number, None, None);
    let body = plain.body.unwrap();
    assert!(body.get("tools").is_none());
    assert!(body.get("response_format").is_none());
    assert_eq!(body["temperature"], Value::from(0.5));
    assert_eq!(body["top_p"], Value::from(1.0));
    assert_eq!(body["top_k"], Value::from(200));
    assert_eq!(body["repetition_penalty"], Value::Null);
    assert_eq!(body["max_tokens"], Value::from(256));
    assert_eq!(body["messages"], value(r#"[{"role":"system","content":"x"}]"#));
    assert_eq!(body["stream"], Value::from(false));
    let full = client().chat_request(
        "m",
        messages(),
        &s,
        number,
        Some(vec![value(r#"{"type":"function"}"#)]),
        Some(value(r#"{"type":"json_object"}"#)),
    );
    let body = full.body.unwrap();
    assert_eq!(body["tools"], value(r#"[{"type":"function"}]"#));
    assert_eq!(body["response_format"], value(r#"{"type":"json_object"}"#));
    assert_eq!(body["top_p"], Value::from(1.0));
    let stream = client().chat_stream_request("m", messages(), &s, number, None);
    let body = stream.body.unwrap();
    assert_eq!(body["stream"], Value::from(true));
    assert!(body.get("tools").is_none());
}

#[test]
fn options_are_clamped() {
    let s = sampling(f32::NAN, 7.0, 50, f32::NEG_INFINITY).clamped();
    assert!(s.temperature.is_nan());
    assert_eq!(number(s.temperature), Value::Null);
    assert_eq!(f32::from_bits(s.top_p.to_bits()), 1.0);
    assert_eq!(s.top_k, 50);
    assert_eq!(f32::from_bits(s.repetition_penalty.to_bits()), 0.0);
    assert_eq!(s.max_tokens, 256);
}

#[test]
fn models_are_listed_in_order() {
    let card = |id: &str| ModelCard { id: id.to_string() };
    let list = ModelListResponse { data: vec![card("b"), card("a")] };
    assert_eq!(list.into_ids(), vec!["b", "a"]);
    assert!(ModelListResponse { data: vec![] }.into_ids().is_empty());
}

#[test]
fn the_first_choice_is_the_reply() {
    let choice = |content: Option<&str>, calls: Option<Vec<VllmToolCall>>| ChatChoice {
        message: ChatMessage { content: content.map(String::from), tool_calls: calls },
    };
    let call = VllmToolCall {
        id: None,
        function: VllmFunctionCall { name: "f".into(), arguments: "{}".into() },
    };
    let none = ChatCompletionResponse { choices: vec![] };
    assert_eq!(none.clone().into_text(), "");
    let empty = none.into_result();
    assert_eq!(empty.content, "");
    assert!(empty.tool_calls.is_empty());
    let two = ChatCompletionResponse {
        choices: vec![choice(Some("one"), None), choice(Some("two"), None)],
    };
    assert_eq!(two.clone().into_text(), "one");
    assert_eq!(two.into_result().content, "one");
    let tools = ChatCompletionResponse { choices: vec![choice(None, Some(vec![call]))] };
    assert_eq!(tools.clone().into_text(), "");
    let result = tools.into_result();
    assert_eq!(result.content, "");
    assert_eq!(result.tool_calls.len(), 1);
    assert_eq!(result.tool_calls[0].function.name, "f");
}

#[test]
fn refused_streams_are_reported() {
    assert_eq!(
        stream_failure("503 Service Unavailable", "busy"),
        "vLLM streaming request failed HTTP 503 Service Unavailable: busy"
    );
}

fn delta(text: &str) -> String {
    format!("data: {{\"choices\":[{{\"delta\":{{\"content\":\"{text}\"}}}}]}}\n")
}

#[test]
fn pieces_are_decoded_up_to_the_end() {
    let mut decoder = StreamDecoder::new();
    let reply = format!(
        "{}\n: comment\r\n  {}data: not json\ndata: {{\"choices\":[]}}\ndata:x\n{}{}",
        delta("Hel"),
        delta("lo"),
        delta(""),
        delta("!")
    );
    let step = decoder.feed(reply.as_bytes());
    assert_eq!(step.pieces, vec!["Hel", "lo", "!"]);
    assert!(!step.done);
    let step = decoder.feed(format!("{}data: [DONE] \r\n{}", delta("x"), delta("y")).as_bytes());
    assert_eq!(step.pieces, vec!["x"]);
    assert!(step.done);
    assert_eq!(decoder.buffer, delta("y"));
}

#[test]
fn the_cut_between_parts_does_not_matter() {
    let reply = format!("{}{}\r\n{}data: [DONE]\n", delta("a"), delta("bc"), delta("d"));
    for cut in 0..reply.len() {
        let mut decoder = StreamDecoder::new();
        let first = decoder.feed(&reply.as_bytes()[..cut]);
        assert!(!first.done);
        assert!(!decoder.buffer.contains('\n'));
        let second = decoder.feed(&reply.as_bytes()[cut..]);
        let mut all = first.pieces;
        all.extend(second.pieces);
        assert_eq!(all, vec!["a", "bc", "d"]);
        assert!(second.done);
    }
}

#[test]
fn bytes_that_are_no_text_are_replaced() {
    let mut decoder = StreamDecoder::new();
    let mut bytes = b"data: {\"choices\":[{\"delta\":{\"content\":\"".to_vec();
    bytes.push(0xff);
    bytes.extend(b"\"}}]}\n");
    assert_eq!(decoder.feed(&bytes).pieces, vec!["\u{fffd}"]);
    let mut decoder = StreamDecoder::new();
    assert_eq!(decoder.feed_text(&delta("\u{fc}")).pieces, vec!["\u{fc}"]);
}

#[test]
fn documents_without_a_piece_say_nothing() {
    let nothing = |text: &str| matches!(read_document(Some(value(text))), LineEvent::Nothing);
    assert!(matches!(read_document(None), LineEvent::Nothing));
    assert!(nothing("[]"));
    assert!(nothing(r#"{"choices":{"0":{"delta":{"content":"x"}}}}"#));
    assert!(nothing(r#"{"choices":[{"delta":{"content":null}}]}"#));
    assert!(nothing(r#"{"choices":[{"delta":{"content":3}}]}"#));
    assert!(nothing(r#"{"choices":[{"delta":{"content":""}}]}"#));
    assert!(nothing(r#"{"choices":[{"message":{"content":"x"}}]}"#));
    assert!(matches!(
        read_document(Some(value(r#"{"choices":[{"delta":{"content":"x"}},{}]}"#))),
        LineEvent::Piece(text) if text == "x"
    ));
}

#[test]
fn a_reply_gives_back_its_documents() {
    let texts = ["one", "", " two ", "\u{1f47b}"];
    let mut reply: String = texts.iter().map(|text| delta(text)).collect();
    reply.push_str("data: [DONE]\n");
    let mut decoder = StreamDecoder::new();
    let step = decoder.feed_text(&reply);
    assert_eq!(step.pieces, vec!["one", " two ", "\u{1f47b}"]);
    assert!(step.done);
    assert!(decoder.buffer.is_empty());
}

#[test]
fn the_models_decide_where_health_is_silent() {
    assert_eq!(health_of_models::<String>(Ok(200)), Ok(true));
    assert_eq!(health_of_models::<String>(Ok(204)), Ok(true));
    assert_eq!(health_of_models::<String>(Ok(404)), Ok(false));
    assert_eq!(health_of_models(Err("refused")), Err("refused"));
    assert!(succeeded(200) && succeeded(299));
    assert!(!succeeded(199) && !succeeded(300) && !succeeded(500));
}

#[test]
fn only_documents_are_posted() {
    let c = client();
    let s = sampling(1.0, 1.0, 1, 1.0);
    assert_eq!(c.health_request().method, HttpMethod::Get);
    assert_eq!(c.list_models_request().method, HttpMethod::Get);
    assert_eq!(c.generate_request("m", "p", &s, number).method, HttpMethod::Post);
    assert_eq!(c.chat_request("m", vec![], &s, number, None, None).method, HttpMethod::Post);
    assert_eq!(c.chat_stream_request("m", vec![], &s, number, None).method, HttpMethod::Post);
}

#[test]
fn generate_is_chat_on_one_message() {
    let s = sampling(9.0, f32::NAN, 7, -1.0);
    let one = vec![value(r#"{"role":"user","content":"hi"}"#)];
    let generated = client().generate_request("m", "hi", &s, number);
    let chatted = client().chat_request("m", one, &s, number, None, None);
    assert_eq!(generated.url, chatted.url);
    assert_eq!(generated.method, chatted.method);
    assert_eq!(generated.authorization, chatted.authorization);
    assert_eq!(generated.body, chatted.body);
}

#[test]
fn a_stream_request_differs_from_chat_in_one_member() {
    let s = sampling(0.5, 0.5, 7, 1.0);
    let messages = || vec![value(r#"{"role":"user","content":"hi"}"#)];
    for format in [None, Some(value(r#"{"type":"json_object"}"#))] {
        let chatted = client().chat_request("m", messages(), &s, number, None, format.clone());
        let streamed = client().chat_stream_request("m", messages(), &s, number, format);
        assert_eq!(streamed.url, chatted.url);
        let mut body = chatted.body.unwrap();
        body["stream"] = Value::from(true);
        assert_eq!(streamed.body.unwrap(), body);
    }
}
