//! Requests to a vLLM server with an OpenAI-compatible interface, and its replies.
use crate::binary32::{Binary32, Real32};
use crate::json::{
    all_contents, bool_value, contents, count_value, list_value, members, new_object, no_members,
    object_value, put_member, text_value, Json,
};
use crate::text::{
    chars_of, ends_with, has_text_at, is_all_space, is_blank, is_space, text_of, trim_bounds,
    trimmed, trimmed_end, trimmed_start, trimming_leaves_the_core,
};
use vstd::prelude::*;
use vstd::string::StringExecFns;
use vstd::utf8::encode_utf8;

verus! {

/// The text without the slashes at its end.
pub open spec fn without_slashes(s: Seq<char>) -> Seq<char>
    decreases s.len(),
{
    if s.len() > 0 && s.last() == '/' {
        without_slashes(s.drop_last())
    } else {
        s
    }
}

/// The address of a server: without white space around it, slashes at its end, and a
/// last segment that names the version of the interface.
pub open spec fn normalized(raw: Seq<char>) -> Seq<char> {
    let s = without_slashes(trimmed(raw));
    if ends_with(s, "/v1"@) {
        s.take(s.len() - 3)
    } else {
        s
    }
}

/// The address of a server: without white space around it, slashes at its end, and a
/// last segment that names the version of the interface.
pub fn normalize_base_url(raw: &str) -> (r: String)
    ensures
        r@ == normalized(raw@),
{
    let chars: Vec<char> = chars_of(raw);
    let (start, trimmed_to): (usize, usize) = trim_bounds(&chars, 0, chars.len());
    assert(chars@.subrange(0, chars.len() as int) =~= raw@);
    let ghost s = trimmed(raw@);
    let mut end: usize = trimmed_to;
    while end > start && chars[end - 1] == '/'
        invariant
            start <= end <= trimmed_to <= chars.len(),
            s == chars@.subrange(start as int, trimmed_to as int),
            without_slashes(s) == without_slashes(chars@.subrange(start as int, end as int)),
        ensures
            start <= end <= trimmed_to,
            without_slashes(s) == without_slashes(chars@.subrange(start as int, end as int)),
            end > start ==> chars@[end - 1] != '/',
        decreases end,
    {
        assert(chars@.subrange(start as int, end as int).drop_last() =~= chars@.subrange(
            start as int,
            end - 1,
        ));
        end = end - 1;
    }
    let ghost kept = chars@.subrange(start as int, end as int);
    assert(without_slashes(s) == kept);
    proof {
        reveal_strlit("/v1");
    }
    if end - start >= 3 && has_text_at(&chars, end - 3, end, "/v1") {
        proof {
            let tail = chars@.subrange(end - 3, end as int);
            assert(tail.take(3) =~= tail);
            assert(kept.skip(kept.len() - 3) =~= tail);
            assert(kept.take(kept.len() - 3) =~= chars@.subrange(start as int, end - 3));
        }
        text_of(&chars, start, end - 3)
    } else {
        proof {
            if kept.len() >= 3 {
                let tail = chars@.subrange(end - 3, end as int);
                assert(tail.take(3) =~= tail);
                assert(kept.skip(kept.len() - 3) =~= tail);
            }
        }
        text_of(&chars, start, end)
    }
}

/// A server, and the key that it asks for.
#[derive(Clone, Debug)]
pub struct VllmClient {
    /// The address of the server.
    pub base_url: String,
    /// The key, where there is one.
    pub api_key: Option<String>,
}

/// How a request is sent.
#[derive(Clone, Copy, Debug, PartialEq, Eq, Structural)]
pub enum HttpMethod {
    Get,
    Post,
}

/// A request is posted just when it carries a document.
pub open spec fn method_for(body: Option<Json>) -> HttpMethod {
    if body is Some {
        HttpMethod::Post
    } else {
        HttpMethod::Get
    }
}

/// A request to a server.
#[derive(Debug)]
pub struct ApiRequest {
    /// How it is sent.
    pub method: HttpMethod,
    /// The address of the resource.
    pub url: String,
    /// The value of the authorization header, where there is one.
    pub authorization: Option<String>,
    /// The document to send, where there is one.
    pub body: Option<serde_json::Value>,
}

/// What to do after asking a server for its health.
#[derive(Debug)]
pub enum HealthStep {
    /// The server is healthy, or is not.
    Known(bool),
    /// Ask for its models instead.
    Ask(ApiRequest),
}

/// Whether a status code reports success.
pub open spec fn is_success(status: u16) -> bool {
    200 <= status < 300
}

/// Whether a status code reports success.
pub fn succeeded(status: u16) -> (r: bool)
    ensures
        r == is_success(status),
{
    200 <= status && status < 300
}

/// Whether a server is healthy: by the status of the health request where it answers, and
/// otherwise by what asking for its models gives, a status or an error.
pub open spec fn health_outcome<E>(health: Option<u16>, models: Result<u16, E>) -> Result<bool, E> {
    match health {
        Some(code) => Ok(is_success(code)),
        None => match models {
            Ok(code) => Ok(is_success(code)),
            Err(error) => Err(error),
        },
    }
}

/// Whether a server that did not answer the health request is healthy, by what asking for
/// its models gave: a status, or an error that stays one.
pub fn health_of_models<E>(models: Result<u16, E>) -> (r: Result<bool, E>)
    ensures
        r == health_outcome(None, models),
{
    match models {
        Ok(code) => Ok(succeeded(code)),
        Err(error) => Err(error),
    }
}

/// The bytes that a header value can hold.
pub open spec fn is_header_byte(b: u8) -> bool {
    (b >= 32 && b != 127) || b == 9
}

/// Whether a text can be a header value.
pub open spec fn is_header_text(text: Seq<char>) -> bool {
    forall|i: int| 0 <= i < encode_utf8(text).len() ==> is_header_byte(#[trigger] encode_utf8(text)[i])
}

/// `HeaderValue::from_str` accepts a text just when every byte of it is printable or a
/// tab, or belongs to a character beyond ASCII.
#[verifier::external_body]
fn accepted_as_header(text: &str) -> (r: bool)
    ensures
        r == is_header_text(text@),
{
    reqwest::header::HeaderValue::from_str(text).is_ok()
}

/// The value of the authorization header for a key; none where there is no key, or where
/// the key cannot stand in a header.
pub open spec fn authorization_text(api_key: Option<Seq<char>>) -> Option<Seq<char>> {
    match api_key {
        Some(key) => if is_header_text("Bearer "@ + key) {
            Some("Bearer "@ + key)
        } else {
            None
        },
        None => None,
    }
}

/// The characters of a text that may be there.
pub open spec fn text_view(text: Option<String>) -> Option<Seq<char>> {
    match text {
        Some(s) => Some(s@),
        None => None,
    }
}

/// How to sample the tokens of a reply.
#[derive(Clone, Copy, Debug)]
pub struct Sampling {
    pub temperature: Binary32,
    pub top_p: Binary32,
    pub top_k: usize,
    pub repetition_penalty: Binary32,
    pub max_tokens: usize,
}

/// The number of tokens to choose from, within the range that a server accepts.
pub open spec fn clamped_top_k(top_k: usize) -> usize {
    if top_k < 1 {
        1
    } else if top_k > 200 {
        200
    } else {
        top_k
    }
}

fn clamp_top_k(top_k: usize) -> (r: usize)
    ensures
        r == clamped_top_k(top_k),
{
    if top_k < 1 {
        1
    } else if top_k > 200 {
        200
    } else {
        top_k
    }
}

/// Whether options are others within the ranges that a server accepts.
pub open spec fn is_clamped(raw: Sampling, options: Sampling) -> bool {
    &&& options.temperature@ == raw.temperature@.clamped(Real32::zero(), Real32::count(2))
    &&& options.top_p@ == raw.top_p@.clamped(Real32::zero(), Real32::count(1))
    &&& options.top_k == clamped_top_k(raw.top_k)
    &&& options.repetition_penalty@ == raw.repetition_penalty@.clamped(
        Real32::zero(),
        Real32::count(2),
    )
    &&& options.max_tokens == raw.max_tokens
}

impl Sampling {
    /// The options within the ranges that a server accepts.
    pub fn clamped(&self) -> (r: Sampling)
        ensures
            is_clamped(*self, r),
    {
        let zero: Binary32 = Binary32::zero();
        let one: Binary32 = Binary32::from_count(1);
        let two: Binary32 = Binary32::from_count(2);
        Sampling {
            temperature: self.temperature.clamp(zero, two),
            top_p: self.top_p.clamp(zero, one),
            top_k: clamp_top_k(self.top_k),
            repetition_penalty: self.repetition_penalty.clamp(zero, two),
            max_tokens: self.max_tokens,
        }
    }
}

/// The sampling options that are fractions, as JSON numbers.
#[derive(Debug)]
pub struct SamplingNumbers {
    pub temperature: serde_json::Value,
    pub top_p: serde_json::Value,
    pub repetition_penalty: serde_json::Value,
}

/// Whether the numbers are what `number` makes of the options.
pub open spec fn are_numbers_of<F: Fn(Binary32) -> serde_json::Value>(
    number: F,
    options: Sampling,
    numbers: SamplingNumbers,
) -> bool {
    &&& call_ensures(number, (options.temperature,), numbers.temperature)
    &&& call_ensures(number, (options.top_p,), numbers.top_p)
    &&& call_ensures(number, (options.repetition_penalty,), numbers.repetition_penalty)
}

/// The members that every request for a completion has.
pub open spec fn completion_members(
    model: Seq<char>,
    messages: Seq<Json>,
    stream: bool,
    options: Sampling,
    numbers: SamplingNumbers,
) -> Map<Seq<char>, Json> {
    no_members().insert("model"@, Json::Text(model)).insert("messages"@, Json::List(messages)).insert(
        "stream"@,
        Json::Bool(stream),
    ).insert("temperature"@, contents(numbers.temperature)).insert(
        "top_p"@,
        contents(numbers.top_p),
    ).insert("top_k"@, Json::Integer(options.top_k as int)).insert(
        "repetition_penalty"@,
        contents(numbers.repetition_penalty),
    ).insert("max_tokens"@, Json::Integer(options.max_tokens as int))
}

/// The members of a request with those that may be there.
pub open spec fn with_options(
    basic: Map<Seq<char>, Json>,
    tools: Option<Vec<serde_json::Value>>,
    response_format: Option<serde_json::Value>,
) -> Map<Seq<char>, Json> {
    let with_tools = match tools {
        Some(list) => basic.insert("tools"@, Json::List(all_contents(list@))),
        None => basic,
    };
    match response_format {
        Some(format) => with_tools.insert("response_format"@, contents(format)),
        None => with_tools,
    }
}

/// A message of the user.
pub open spec fn user_message(prompt: Seq<char>) -> Json {
    Json::Object(
        no_members().insert("role"@, Json::Text("user"@)).insert("content"@, Json::Text(prompt)),
    )
}

fn completion_object(
    model: &str,
    messages: Vec<serde_json::Value>,
    stream: bool,
    options: &Sampling,
    numbers: SamplingNumbers,
) -> (r: serde_json::Map<String, serde_json::Value>)
    ensures
        members(r) == completion_members(
            model@,
            all_contents(messages@),
            stream,
            *options,
            numbers,
        ),
{
    let mut object: serde_json::Map<String, serde_json::Value> = new_object();
    put_member(&mut object, "model", text_value(model));
    put_member(&mut object, "messages", list_value(messages));
    put_member(&mut object, "stream", bool_value(stream));
    put_member(&mut object, "temperature", numbers.temperature);
    put_member(&mut object, "top_p", numbers.top_p);
    put_member(&mut object, "top_k", count_value(options.top_k));
    put_member(&mut object, "repetition_penalty", numbers.repetition_penalty);
    put_member(&mut object, "max_tokens", count_value(options.max_tokens));
    object
}

/// Whether a request goes to the given resource of a server, with its key and the given
/// document: posted where there is one, and otherwise a plain query.
pub open spec fn is_request(
    client: VllmClient,
    path: Seq<char>,
    body: Option<Json>,
    request: ApiRequest,
) -> bool {
    &&& request.method == method_for(body)
    &&& request.url@ == client.base_url@ + path
    &&& text_view(request.authorization) == authorization_text(text_view(client.api_key))
    &&& (match request.body {
        Some(value) => Some(contents(value)),
        None => None,
    }) == body
}

/// Whether a request asks for a completion: with the sampling options within their ranges,
/// those that are fractions as `number` writes them, and with the tools and the format that
/// may be there.
pub open spec fn asks_for_completion<F: Fn(Binary32) -> serde_json::Value>(
    client: VllmClient,
    model: Seq<char>,
    messages: Seq<Json>,
    stream: bool,
    sampling: Sampling,
    number: F,
    tools: Option<Vec<serde_json::Value>>,
    response_format: Option<serde_json::Value>,
    request: ApiRequest,
) -> bool {
    exists|options: Sampling, numbers: SamplingNumbers|
        is_clamped(sampling, options) && #[trigger] are_numbers_of(number, options, numbers)
            && is_request(
            client,
            "/v1/chat/completions"@,
            Some(
                Json::Object(
                    with_options(
                        completion_members(model, messages, stream, options, numbers),
                        tools,
                        response_format,
                    ),
                ),
            ),
            request,
        )
}

impl VllmClient {
    /// A client of the server at an address. A key that is all white space is no key.
    pub fn new(base_url: String, api_key: Option<String>) -> (r: VllmClient)
        ensures
            r.base_url@ == normalized(base_url@),
            r.api_key == (match api_key {
                Some(key) => if trimmed(key@).len() == 0 {
                    None
                } else {
                    Some(key)
                },
                None => None,
            }),
    {
        let kept: Option<String> = match api_key {
            Some(key) => if is_blank(key.as_str()) {
                None
            } else {
                Some(key)
            },
            None => None,
        };
        VllmClient { base_url: normalize_base_url(base_url.as_str()), api_key: kept }
    }

    /// The value of the authorization header.
    pub fn authorization(&self) -> (r: Option<String>)
        ensures
            text_view(r) == authorization_text(text_view(self.api_key)),
    {
        match &self.api_key {
            Some(key) => {
                let mut text: String = "Bearer ".to_owned();
                text.append(key.as_str());
                if accepted_as_header(text.as_str()) {
                    Some(text)
                } else {
                    None
                }
            },
            None => None,
        }
    }

    fn request(&self, path: &str, body: Option<serde_json::Value>) -> (r: ApiRequest)
        ensures
            is_request(
                *self,
                path@,
                match body {
                    Some(value) => Some(contents(value)),
                    None => None,
                },
                r,
            ),
    {
        let mut url: String = self.base_url.clone();
        url.append(path);
        let method: HttpMethod = match &body {
            Some(_) => HttpMethod::Post,
            None => HttpMethod::Get,
        };
        ApiRequest { method, url, authorization: self.authorization(), body }
    }

    /// The request for the health of the server.
    pub fn health_request(&self) -> (r: ApiRequest)
        ensures
            is_request(*self, "/health"@, None, r),
    {
        self.request("/health", None)
    }

    /// What the status of the health request says, or that the server is to be asked for
    /// its models where it did not answer; `health_of_models` judges what that gives.
    pub fn health(&self, status: Option<u16>) -> (r: HealthStep)
        ensures
            match status {
                Some(code) => r == HealthStep::Known(is_success(code)),
                None => r matches HealthStep::Ask(request) && is_request(
                    *self,
                    "/v1/models"@,
                    None,
                    request,
                ),
            },
    {
        match status {
            Some(code) => HealthStep::Known(succeeded(code)),
            None => HealthStep::Ask(self.list_models_request()),
        }
    }

    /// The request for the models of the server.
    pub fn list_models_request(&self) -> (r: ApiRequest)
        ensures
            is_request(*self, "/v1/models"@, None, r),
    {
        self.request("/v1/models", None)
    }

    /// The request for a reply to one message of the user. `number` writes a fraction as a
    /// JSON number.
    pub fn generate_request<F: Fn(Binary32) -> serde_json::Value>(
        &self,
        model: &str,
        prompt: &str,
        sampling: &Sampling,
        number: F,
    ) -> (r: ApiRequest)
        requires
            forall|x: Binary32| #[trigger] call_requires(number, (x,)),
        ensures
            asks_for_completion(
                *self,
                model@,
                seq![user_message(prompt@)],
                false,
                *sampling,
                number,
                None,
                None,
                r,
            ),
    {
        let mut message: serde_json::Map<String, serde_json::Value> = new_object();
        put_member(&mut message, "role", text_value("user"));
        put_member(&mut message, "content", text_value(prompt));
        let messages: Vec<serde_json::Value> = vec![object_value(message)];
        assert(all_contents(messages@) =~= seq![user_message(prompt@)]);
        self.chat_completion_request(model, messages, false, sampling, number, None, None)
    }

    fn chat_completion_request<F: Fn(Binary32) -> serde_json::Value>(
        &self,
        model: &str,
        messages: Vec<serde_json::Value>,
        stream: bool,
        sampling: &Sampling,
        number: F,
        tools: Option<Vec<serde_json::Value>>,
        response_format: Option<serde_json::Value>,
    ) -> (r: ApiRequest)
        requires
            forall|x: Binary32| #[trigger] call_requires(number, (x,)),
        ensures
            asks_for_completion(
                *self,
                model@,
                all_contents(messages@),
                stream,
                *sampling,
                number,
                tools,
                response_format,
                r,
            ),
    {
        let options: Sampling = sampling.clamped();
        let numbers: SamplingNumbers = SamplingNumbers {
            temperature: number(options.temperature),
            top_p: number(options.top_p),
            repetition_penalty: number(options.repetition_penalty),
        };
        assert(are_numbers_of(number, options, numbers));
        let mut object: serde_json::Map<String, serde_json::Value> = completion_object(
            model,
            messages,
            stream,
            &options,
            numbers,
        );
        if let Some(list) = tools {
            put_member(&mut object, "tools", list_value(list));
        }
        if let Some(format) = response_format {
            put_member(&mut object, "response_format", format);
        }
        self.request("/v1/chat/completions", Some(object_value(object)))
    }

    /// The request for a reply to a conversation, with the tools that the model may call
    /// and the format of its reply. `number` writes a fraction as a JSON number.
    pub fn chat_request<F: Fn(Binary32) -> serde_json::Value>(
        &self,
        model: &str,
        messages: Vec<serde_json::Value>,
        sampling: &Sampling,
        number: F,
        tools: Option<Vec<serde_json::Value>>,
        response_format: Option<serde_json::Value>,
    ) -> (r: ApiRequest)
        requires
            forall|x: Binary32| #[trigger] call_requires(number, (x,)),
        ensures
            asks_for_completion(
                *self,
                model@,
                all_contents(messages@),
                false,
                *sampling,
                number,
                tools,
                response_format,
                r,
            ),
    {
        self.chat_completion_request(
            model,
            messages,
            false,
            sampling,
            number,
            tools,
            response_format,
        )
    }

    /// The request for a reply to a conversation piece by piece. `number` writes a fraction
    /// as a JSON number.
    pub fn chat_stream_request<F: Fn(Binary32) -> serde_json::Value>(
        &self,
        model: &str,
        messages: Vec<serde_json::Value>,
        sampling: &Sampling,
        number: F,
        response_format: Option<serde_json::Value>,
    ) -> (r: ApiRequest)
        requires
            forall|x: Binary32| #[trigger] call_requires(number, (x,)),
        ensures
            asks_for_completion(
                *self,
                model@,
                all_contents(messages@),
                true,
                *sampling,
                number,
                None,
                response_format,
                r,
            ),
    {
        self.chat_completion_request(
            model,
            messages,
            true,
            sampling,
            number,
            None,
            response_format,
        )
    }
}

/// A model of the server.
#[derive(Clone, Debug)]
pub struct ModelCard {
    /// The model's name.
    pub id: String,
}

/// The models of the server.
#[derive(Clone, Debug)]
pub struct ModelListResponse {
    pub data: Vec<ModelCard>,
}

/// The names of the models, in their order.
pub open spec fn model_ids(models: Seq<ModelCard>) -> Seq<String> {
    models.map_values(|m: ModelCard| m.id)
}

impl ModelListResponse {
    /// The names of the models, in their order.
    pub fn into_ids(self) -> (r: Vec<String>)
        ensures
            r@ == model_ids(self.data@),
    {
        let mut ids: Vec<String> = Vec::new();
        let mut i: usize = 0;
        while i < self.data.len()
            invariant
                i <= self.data.len(),
                ids@ == model_ids(self.data@).take(i as int),
            decreases self.data.len() - i,
        {
            ids.push(self.data[i].id.clone());
            assert(ids@ =~= model_ids(self.data@).take(i + 1));
            i = i + 1;
        }
        assert(ids@ =~= model_ids(self.data@));
        ids
    }
}

/// A call of a tool that the model asks for.
#[derive(Clone, Debug)]
pub struct VllmToolCall {
    /// The name of the call.
    pub id: Option<String>,
    /// The function to call.
    pub function: VllmFunctionCall,
}

/// A function to call.
#[derive(Clone, Debug)]
pub struct VllmFunctionCall {
    /// The function's name.
    pub name: String,
    /// The arguments as JSON text.
    pub arguments: String,
}

/// A reply of the model: its text, and the tools that it asks for.
#[derive(Debug)]
pub struct VllmChatResult {
    pub content: String,
    pub tool_calls: Vec<VllmToolCall>,
}

/// A message of the model. It has no content where it only asks for tools.
#[derive(Clone, Debug)]
pub struct ChatMessage {
    pub content: Option<String>,
    pub tool_calls: Option<Vec<VllmToolCall>>,
}

/// One of the replies to choose from.
#[derive(Clone, Debug)]
pub struct ChatChoice {
    pub message: ChatMessage,
}

/// The replies to choose from.
#[derive(Clone, Debug)]
pub struct ChatCompletionResponse {
    pub choices: Vec<ChatChoice>,
}

impl ChatCompletionResponse {
    /// The text of the first reply, empty where there is none.
    pub open spec fn text(self) -> Seq<char> {
        if self.choices@.len() == 0 {
            Seq::empty()
        } else {
            match self.choices@[0].message.content {
                Some(content) => content@,
                None => Seq::empty(),
            }
        }
    }

    /// The tools that the first reply asks for.
    pub open spec fn tool_calls(self) -> Seq<VllmToolCall> {
        if self.choices@.len() == 0 {
            Seq::empty()
        } else {
            match self.choices@[0].message.tool_calls {
                Some(calls) => calls@,
                None => Seq::empty(),
            }
        }
    }

    /// The message of the first reply, and an empty one where there is none.
    fn into_message(self) -> (r: ChatMessage)
        ensures
            self.choices@.len() > 0 ==> r == self.choices@[0].message,
            self.choices@.len() == 0 ==> r.content is None && r.tool_calls is None,
    {
        let mut choices: Vec<ChatChoice> = self.choices;
        if choices.len() == 0 {
            ChatMessage { content: None, tool_calls: None }
        } else {
            choices.remove(0).message
        }
    }

    /// The text of the first reply, empty where there is none.
    pub fn into_text(self) -> (r: String)
        ensures
            r@ == self.text(),
    {
        match self.into_message().content {
            Some(content) => content,
            None => String::new(),
        }
    }

    /// The first reply: its text and the tools that it asks for, each empty where there
    /// is none.
    pub fn into_result(self) -> (r: VllmChatResult)
        ensures
            r.content@ == self.text(),
            r.tool_calls@ == self.tool_calls(),
    {
        let message: ChatMessage = self.into_message();
        VllmChatResult {
            content: match message.content {
                Some(content) => content,
                None => String::new(),
            },
            tool_calls: match message.tool_calls {
                Some(calls) => calls,
                None => Vec::new(),
            },
        }
    }
}

/// An address, the address followed by the interface's version, and that followed by
/// slashes are the same server: the version and the slashes are taken off again.
pub proof fn version_segment_is_dropped(base: Seq<char>, slashes: nat)
    requires
        base.len() > 0 ==> !is_space(base[0]),
    ensures
        normalized(base + "/v1"@ + seq_of_slashes(slashes)) == base,
{
    reveal_strlit("/v1");
    let versioned = base + "/v1"@;
    let raw = versioned + seq_of_slashes(slashes);
    assert(raw[0] == (if base.len() > 0 {
        base[0]
    } else {
        '/'
    }));
    assert(trimmed_start(raw) == raw);
    assert(raw.last() == (if slashes == 0 {
        '1'
    } else {
        '/'
    }));
    assert(trimmed_end(raw) == raw);
    lemma_slashes_dropped(versioned, slashes);
    assert(versioned.last() == '1');
    assert(without_slashes(versioned) == versioned);
    assert(versioned.skip(versioned.len() - 3) =~= "/v1"@);
    assert(versioned.take(versioned.len() - 3) =~= base);
}

/// So many slashes.
pub open spec fn seq_of_slashes(n: nat) -> Seq<char> {
    Seq::new(n, |i: int| '/')
}

proof fn lemma_slashes_dropped(s: Seq<char>, n: nat)
    ensures
        without_slashes(s + seq_of_slashes(n)) == without_slashes(s),
    decreases n,
{
    if n > 0 {
        let m = (n - 1) as nat;
        assert((s + seq_of_slashes(n)).drop_last() =~= s + seq_of_slashes(m));
        lemma_slashes_dropped(s, m);
    } else {
        assert(s + seq_of_slashes(0) =~= s);
    }
}

proof fn lemma_all_space(s: Seq<char>)
    requires
        forall|i: int| 0 <= i < s.len() ==> is_space(#[trigger] s[i]),
    ensures
        trimmed_start(s).len() == 0,
    decreases s.len(),
{
    if s.len() > 0 {
        assert forall|i: int| 0 <= i < s.drop_first().len() implies is_space(
            #[trigger] s.drop_first()[i],
        ) by {
            assert(s.drop_first()[i] == s[i + 1]);
        }
        lemma_all_space(s.drop_first());
    }
}

proof fn lemma_space_before(before: Seq<char>, s: Seq<char>)
    requires
        forall|i: int| 0 <= i < before.len() ==> is_space(#[trigger] before[i]),
    ensures
        trimmed_start(before + s) == trimmed_start(s),
    decreases before.len(),
{
    if before.len() > 0 {
        let fewer = before.drop_first();
        assert forall|i: int| 0 <= i < fewer.len() implies is_space(#[trigger] fewer[i]) by {
            assert(fewer[i] == before[i + 1]);
        }
        assert((before + s)[0] == before[0]);
        assert((before + s).drop_first() =~= fewer + s);
        lemma_space_before(fewer, s);
    } else {
        assert(before + s =~= s);
    }
}

proof fn lemma_space_after(s: Seq<char>, after: Seq<char>)
    requires
        forall|i: int| 0 <= i < after.len() ==> is_space(#[trigger] after[i]),
    ensures
        trimmed_end(s + after) == trimmed_end(s),
    decreases after.len(),
{
    if after.len() > 0 {
        let fewer = after.drop_last();
        assert forall|i: int| 0 <= i < fewer.len() implies is_space(#[trigger] fewer[i]) by {
            assert(fewer[i] == after[i]);
        }
        assert((s + after).last() == after[after.len() - 1]);
        assert((s + after).drop_last() =~= s + fewer);
        lemma_space_after(s, fewer);
    } else {
        assert(s + after =~= s);
    }
}

proof fn lemma_trimmed_before_space(s: Seq<char>, after: Seq<char>)
    requires
        forall|i: int| 0 <= i < after.len() ==> is_space(#[trigger] after[i]),
    ensures
        trimmed(s + after) == trimmed(s),
    decreases s.len(),
{
    if s.len() == 0 {
        assert(s + after =~= after);
        lemma_all_space(after);
        assert(trimmed_start(after) =~= s);
    } else if is_space(s[0]) {
        assert((s + after)[0] == s[0]);
        assert((s + after).drop_first() =~= s.drop_first() + after);
        lemma_trimmed_before_space(s.drop_first(), after);
    } else {
        assert((s + after)[0] == s[0]);
        lemma_space_after(s, after);
    }
}

/// White space around an address does not matter.
pub proof fn space_around_is_dropped(before: Seq<char>, base: Seq<char>, after: Seq<char>)
    requires
        forall|i: int| 0 <= i < before.len() ==> is_space(#[trigger] before[i]),
        forall|i: int| 0 <= i < after.len() ==> is_space(#[trigger] after[i]),
    ensures
        normalized(before + base + after) == normalized(base),
{
    lemma_trimmed_before_space(before + base, after);
    lemma_space_before(before, base);
}

proof fn lemma_slashes_behind(base: Seq<char>, slashes: nat)
    requires
        base.len() > 0,
        !is_space(base.last()),
    ensures
        trimmed_start(base + seq_of_slashes(slashes)) == trimmed_start(base) + seq_of_slashes(
            slashes,
        ),
        trimmed_start(base).len() > 0,
        trimmed_start(base).last() == base.last(),
    decreases base.len(),
{
    let raw = base + seq_of_slashes(slashes);
    assert(raw[0] == base[0]);
    if is_space(base[0]) {
        let rest = base.drop_first();
        assert(base[base.len() - 1] == base.last());
        assert(rest.len() > 0 && rest.last() == base.last());
        assert(raw.drop_first() =~= rest + seq_of_slashes(slashes));
        lemma_slashes_behind(rest, slashes);
    }
}

/// Slashes at the end of an address do not matter, but where white space within the address
/// stands before them.
pub proof fn trailing_slashes_are_dropped(base: Seq<char>, slashes: nat)
    requires
        slashes == 0 || !is_space(base.last()) || forall|i: int|
            0 <= i < base.len() ==> is_space(#[trigger] base[i]),
    ensures
        normalized(base + seq_of_slashes(slashes)) == normalized(base),
{
    let raw = base + seq_of_slashes(slashes);
    if slashes == 0 {
        assert(raw =~= base);
    } else if forall|i: int| 0 <= i < base.len() ==> is_space(#[trigger] base[i]) {
        let none = Seq::<char>::empty();
        lemma_space_before(base, seq_of_slashes(slashes));
        lemma_all_space(base);
        assert(trimmed_start(base) =~= none);
        assert(trimmed(raw) == seq_of_slashes(slashes));
        assert(none + seq_of_slashes(slashes) =~= seq_of_slashes(slashes));
        lemma_slashes_dropped(none, slashes);
    } else {
        lemma_slashes_behind(base, slashes);
        let kept = trimmed_start(base);
        assert((kept + seq_of_slashes(slashes)).last() == '/');
        lemma_slashes_dropped(kept, slashes);
    }
}

/// Whether options are within the ranges that a server accepts.
pub open spec fn are_in_range(options: Sampling) -> bool {
    &&& Real32::zero().at_most(options.temperature@)
    &&& options.temperature@.at_most(Real32::count(2))
    &&& Real32::zero().at_most(options.top_p@)
    &&& options.top_p@.at_most(Real32::count(1))
    &&& Real32::zero().at_most(options.repetition_penalty@)
    &&& options.repetition_penalty@.at_most(Real32::count(2))
    &&& 1 <= options.top_k <= 200
}

/// Options that are numbers end up within the ranges that a server accepts.
pub proof fn clamped_options_are_in_range(raw: Sampling, options: Sampling)
    requires
        is_clamped(raw, options),
        raw.temperature@ !is NaN,
        raw.top_p@ !is NaN,
        raw.repetition_penalty@ !is NaN,
    ensures
        are_in_range(options),
{
}

/// A request names tools and a format of the reply just where they are given, and what else
/// it asks for is not changed by them.
pub proof fn options_are_sent_only_when_given(
    model: Seq<char>,
    messages: Seq<Json>,
    stream: bool,
    options: Sampling,
    numbers: SamplingNumbers,
    tools: Option<Vec<serde_json::Value>>,
    response_format: Option<serde_json::Value>,
)
    ensures
        ({
            let sent = with_options(
                completion_members(model, messages, stream, options, numbers),
                tools,
                response_format,
            );
            &&& sent.contains_key("tools"@) == (tools is Some)
            &&& sent.contains_key("response_format"@) == (response_format is Some)
            &&& sent.contains_key("model"@) && sent["model"@] == Json::Text(model)
            &&& sent.contains_key("messages"@) && sent["messages"@] == Json::List(messages)
            &&& sent.contains_key("stream"@) && sent["stream"@] == Json::Bool(stream)
            &&& sent.contains_key("temperature"@) && sent["temperature"@] == contents(
                numbers.temperature,
            )
            &&& sent.contains_key("top_p"@) && sent["top_p"@] == contents(numbers.top_p)
            &&& sent.contains_key("top_k"@) && sent["top_k"@] == Json::Integer(options.top_k as int)
            &&& sent.contains_key("repetition_penalty"@) && sent["repetition_penalty"@]
                == contents(numbers.repetition_penalty)
            &&& sent.contains_key("max_tokens"@) && sent["max_tokens"@] == Json::Integer(
                options.max_tokens as int,
            )
        }),
{
    lemma_names_differ();
}

/// A server that answers the health request is judged by that answer alone; one that does
/// not is judged by its models, and only where that fails too is there an error, namely that
/// failure.
pub proof fn health_is_judged<E>(health: Option<u16>, models: Result<u16, E>)
    ensures
        health matches Some(code) ==> health_outcome(health, models) == Ok::<bool, E>(
            is_success(code),
        ),
        health is None ==> (models matches Ok(code) ==> health_outcome(health, models) == Ok::<
            bool,
            E,
        >(is_success(code))),
        health_outcome(health, models) is Err <==> health is None && models is Err,
        health_outcome(health, models) is Err ==> health_outcome(health, models)->Err_0
            == models->Err_0,
{
}

/// Whether `number` writes the same document for the same value.
pub open spec fn writes_by_value<F: Fn(Binary32) -> serde_json::Value>(number: F) -> bool {
    forall|x: Binary32, y: Binary32, v: serde_json::Value, w: serde_json::Value|
        x@ == y@ && #[trigger] call_ensures(number, (x,), v) && #[trigger] call_ensures(
            number,
            (y,),
            w,
        ) ==> contents(v) == contents(w)
}

/// The document that a request carries.
pub open spec fn body_view(request: ApiRequest) -> Option<Json> {
    match request.body {
        Some(value) => Some(contents(value)),
        None => None,
    }
}

/// Whether two requests go to the same resource, in the same way and with the same key.
pub open spec fn same_resource(a: ApiRequest, b: ApiRequest) -> bool {
    &&& a.method == b.method
    &&& a.url@ == b.url@
    &&& text_view(a.authorization) == text_view(b.authorization)
}

/// The sampling options and their numbers with which a request for a completion was made.
proof fn lemma_completion<F: Fn(Binary32) -> serde_json::Value>(
    client: VllmClient,
    model: Seq<char>,
    messages: Seq<Json>,
    stream: bool,
    sampling: Sampling,
    number: F,
    tools: Option<Vec<serde_json::Value>>,
    response_format: Option<serde_json::Value>,
    request: ApiRequest,
) -> (made: (Sampling, SamplingNumbers))
    requires
        asks_for_completion(
            client,
            model,
            messages,
            stream,
            sampling,
            number,
            tools,
            response_format,
            request,
        ),
    ensures
        is_clamped(sampling, made.0),
        are_numbers_of(number, made.0, made.1),
        is_request(
            client,
            "/v1/chat/completions"@,
            Some(
                Json::Object(
                    with_options(
                        completion_members(model, messages, stream, made.0, made.1),
                        tools,
                        response_format,
                    ),
                ),
            ),
            request,
        ),
{
    choose|options: Sampling, numbers: SamplingNumbers|
        is_clamped(sampling, options) && #[trigger] are_numbers_of(number, options, numbers)
            && is_request(
            client,
            "/v1/chat/completions"@,
            Some(
                Json::Object(
                    with_options(
                        completion_members(model, messages, stream, options, numbers),
                        tools,
                        response_format,
                    ),
                ),
            ),
            request,
        )
}

/// Asking for a reply to one message of the user is a conversation of that message alone,
/// without tools and format: the request is the same, and from the same response the text is
/// the content of the result, empty where there is no reply or it has no content.
pub proof fn generating_is_a_chat_of_one_message<F: Fn(Binary32) -> serde_json::Value>(
    client: VllmClient,
    model: Seq<char>,
    prompt: Seq<char>,
    messages: Seq<serde_json::Value>,
    sampling: Sampling,
    number: F,
    generated: ApiRequest,
    chatted: ApiRequest,
    response: ChatCompletionResponse,
    text: String,
    result: VllmChatResult,
)
    requires
        writes_by_value(number),
        asks_for_completion(
            client,
            model,
            seq![user_message(prompt)],
            false,
            sampling,
            number,
            None,
            None,
            generated,
        ),
        all_contents(messages) == seq![user_message(prompt)],
        asks_for_completion(
            client,
            model,
            all_contents(messages),
            false,
            sampling,
            number,
            None,
            None,
            chatted,
        ),
        text@ == response.text(),
        result.content@ == response.text(),
    ensures
        same_resource(generated, chatted),
        generated.method == HttpMethod::Post,
        body_view(generated) == body_view(chatted),
        text@ == result.content@,
        response.choices@.len() == 0 || response.choices@[0].message.content is None ==> text@.len()
            == 0,
{
    let one = seq![user_message(prompt)];
    let (o, n) = lemma_completion(
        client,
        model,
        one,
        false,
        sampling,
        number,
        None,
        None,
        generated,
    );
    let (p, m) = lemma_completion(
        client,
        model,
        one,
        false,
        sampling,
        number,
        None,
        None,
        chatted,
    );
    lemma_same_members(model, one, false, sampling, number, o, n, p, m);
}

/// The members of a request depend on the values of the options alone.
proof fn lemma_same_members<F: Fn(Binary32) -> serde_json::Value>(
    model: Seq<char>,
    messages: Seq<Json>,
    stream: bool,
    sampling: Sampling,
    number: F,
    o: Sampling,
    n: SamplingNumbers,
    p: Sampling,
    m: SamplingNumbers,
)
    requires
        writes_by_value(number),
        is_clamped(sampling, o),
        is_clamped(sampling, p),
        are_numbers_of(number, o, n),
        are_numbers_of(number, p, m),
    ensures
        completion_members(model, messages, stream, o, n) == completion_members(
            model,
            messages,
            stream,
            p,
            m,
        ),
{
    assert(contents(n.temperature) == contents(m.temperature));
    assert(contents(n.top_p) == contents(m.top_p));
    assert(contents(n.repetition_penalty) == contents(m.repetition_penalty));
}

/// The request for a streamed reply is the one for a whole reply without tools, but that it
/// asks for a stream: nothing else in it changes, no tools are named, and a format just where
/// one is given.
pub proof fn streaming_is_a_chat_that_streams<F: Fn(Binary32) -> serde_json::Value>(
    client: VllmClient,
    model: Seq<char>,
    messages: Seq<Json>,
    sampling: Sampling,
    number: F,
    response_format: Option<serde_json::Value>,
    streamed: ApiRequest,
    chatted: ApiRequest,
)
    requires
        writes_by_value(number),
        asks_for_completion(
            client,
            model,
            messages,
            true,
            sampling,
            number,
            None,
            response_format,
            streamed,
        ),
        asks_for_completion(
            client,
            model,
            messages,
            false,
            sampling,
            number,
            None,
            response_format,
            chatted,
        ),
    ensures
        same_resource(streamed, chatted),
        streamed.method == HttpMethod::Post,
        streamed.url@ == client.base_url@ + "/v1/chat/completions"@,
        match (body_view(streamed), body_view(chatted)) {
            (Some(Json::Object(sent)), Some(Json::Object(whole))) => {
                &&& sent == whole.insert("stream"@, Json::Bool(true))
                &&& whole.contains_key("stream"@) && whole["stream"@] == Json::Bool(false)
                &&& !sent.contains_key("tools"@)
                &&& sent.contains_key("response_format"@) == (response_format is Some)
            },
            _ => false,
        },
{
    let (o, n) = lemma_completion(
        client,
        model,
        messages,
        true,
        sampling,
        number,
        None,
        response_format,
        streamed,
    );
    let (p, m) = lemma_completion(
        client,
        model,
        messages,
        false,
        sampling,
        number,
        None,
        response_format,
        chatted,
    );
    lemma_same_members(model, messages, true, sampling, number, o, n, p, m);
    lemma_names_differ();
    let sent = with_options(
        completion_members(model, messages, true, p, m),
        None,
        response_format,
    );
    let whole = with_options(
        completion_members(model, messages, false, p, m),
        None,
        response_format,
    );
    assert(sent =~= whole.insert("stream"@, Json::Bool(true)));
}

/// A request for a completion carries options within the ranges that a server accepts, as
/// `number` writes them, where they are numbers.
pub proof fn sent_options_are_in_range<F: Fn(Binary32) -> serde_json::Value>(
    client: VllmClient,
    model: Seq<char>,
    messages: Seq<Json>,
    stream: bool,
    sampling: Sampling,
    number: F,
    tools: Option<Vec<serde_json::Value>>,
    response_format: Option<serde_json::Value>,
    request: ApiRequest,
) -> (made: (Sampling, SamplingNumbers))
    requires
        asks_for_completion(
            client,
            model,
            messages,
            stream,
            sampling,
            number,
            tools,
            response_format,
            request,
        ),
        sampling.temperature@ !is NaN,
        sampling.top_p@ !is NaN,
        sampling.repetition_penalty@ !is NaN,
    ensures
        are_in_range(made.0),
        made.0.max_tokens == sampling.max_tokens,
        are_numbers_of(number, made.0, made.1),
        match body_view(request) {
            Some(Json::Object(sent)) => {
                &&& sent["temperature"@] == contents(made.1.temperature)
                &&& sent["top_p"@] == contents(made.1.top_p)
                &&& sent["top_k"@] == Json::Integer(made.0.top_k as int)
                &&& sent["repetition_penalty"@] == contents(made.1.repetition_penalty)
                &&& sent["max_tokens"@] == Json::Integer(made.0.max_tokens as int)
            },
            _ => false,
        },
{
    let made = lemma_completion(
        client,
        model,
        messages,
        stream,
        sampling,
        number,
        tools,
        response_format,
        request,
    );
    clamped_options_are_in_range(sampling, made.0);
    options_are_sent_only_when_given(
        model,
        messages,
        stream,
        made.0,
        made.1,
        tools,
        response_format,
    );
    made
}

/// What tells the names of a request's members apart.
proof fn lemma_names_differ()
    ensures
        "model"@.len() == 5 && "model"@[0] == 'm',
        "messages"@.len() == 8,
        "stream"@.len() == 6,
        "temperature"@.len() == 11,
        "top_p"@.len() == 5 && "top_p"@[0] == 't' && "top_p"@[2] == 'p' && "top_p"@[4] == 'p',
        "top_k"@.len() == 5 && "top_k"@[0] == 't' && "top_k"@[2] == 'p' && "top_k"@[4] == 'k',
        "repetition_penalty"@.len() == 18,
        "max_tokens"@.len() == 10,
        "tools"@.len() == 5 && "tools"@[0] == 't' && "tools"@[2] == 'o',
        "response_format"@.len() == 15,
{
    reveal_strlit("model");
    reveal_strlit("messages");
    reveal_strlit("stream");
    reveal_strlit("temperature");
    reveal_strlit("top_p");
    reveal_strlit("top_k");
    reveal_strlit("repetition_penalty");
    reveal_strlit("max_tokens");
    reveal_strlit("tools");
    reveal_strlit("response_format");
}

/// The message for a streaming request that the server refuses.
pub fn stream_failure(status: &str, body: &str) -> (r: String)
    ensures
        r@ == "vLLM streaming request failed HTTP "@ + status@ + ": "@ + body@,
{
    let mut message: String = "vLLM streaming request failed HTTP ".to_owned();
    message.append(status);
    message.append(": ");
    message.append(body);
    message
}

/// The address of a server is what is left without the white space around it, then without the
/// slashes at its end, and then without one last segment `/v1`: nothing else is taken off.
pub proof fn an_address_loses_space_slashes_and_version(
    left: Seq<char>,
    base: Seq<char>,
    slashes: nat,
    right: Seq<char>,
)
    requires
        is_all_space(left),
        is_all_space(right),
        base.len() > 0 ==> !is_space(base[0]) && base.last() != '/',
        slashes == 0 && base.len() > 0 ==> !is_space(base.last()),
    ensures
        ({
            let n = base.len() as int;
            normalized(left + (base + Seq::new(slashes, |i: int| '/')) + right) == (if n >= 3
                && base[n - 3] == '/' && base[n - 2] == 'v' && base[n - 1] == '1' {
                base.take(n - 3)
            } else {
                base
            })
        }),
{
    reveal_strlit("/v1");
    let n = base.len() as int;
    let tail = seq_of_slashes(slashes);
    let core = base + tail;
    assert(tail =~= Seq::new(slashes, |i: int| '/'));
    if core.len() > 0 {
        assert(core[0] == (if n > 0 {
            base[0]
        } else {
            '/'
        }));
        assert(core.last() == (if slashes == 0 {
            base.last()
        } else {
            '/'
        }));
    }
    trimming_leaves_the_core(left, core, right);
    lemma_slashes_dropped(base, slashes);
    assert(without_slashes(base) == base);
    if n >= 3 {
        let end = base.skip(n - 3);
        assert(end[0] == base[n - 3] && end[1] == base[n - 2] && end[2] == base[n - 1]);
        if base[n - 3] == '/' && base[n - 2] == 'v' && base[n - 1] == '1' {
            assert(end =~= "/v1"@);
        }
    }
}

/// A request says where it goes: to the server's address followed by the path. It carries the
/// document where there is one, and is then posted. Its authorization is the key behind the
/// word `Bearer`, where there is a key of which every byte can stand in a header.
pub proof fn a_request_says_where_it_goes(
    client: VllmClient,
    path: Seq<char>,
    body: Option<Json>,
    request: ApiRequest,
)
    requires
        is_request(client, path, body, request),
    ensures
        request.url@ == client.base_url@ + path,
        request.method == HttpMethod::Post <==> body is Some,
        request.method == HttpMethod::Get <==> body is None,
        request.body is Some <==> body is Some,
        request.body matches Some(value) ==> body == Some(contents(value)),
        client.api_key is None ==> request.authorization is None,
        client.api_key matches Some(key) ==> {
            let bytes = encode_utf8("Bearer "@ + key@);
            if forall|i: int|
                0 <= i < bytes.len() ==> (#[trigger] bytes[i] >= 32 && bytes[i] != 127) || bytes[i]
                    == 9 {
                request.authorization matches Some(text) && text@ == "Bearer "@ + key@
            } else {
                request.authorization is None
            }
        },
{
    if client.api_key is Some {
        let key = client.api_key->0;
        let text = "Bearer "@ + key@;
        let bytes = encode_utf8(text);
        if forall|i: int|
            0 <= i < bytes.len() ==> (#[trigger] bytes[i] >= 32 && bytes[i] != 127) || bytes[i]
                == 9 {
            assert(is_header_text(text));
        } else {
            let i = choose|i: int|
                0 <= i < bytes.len() && !((#[trigger] bytes[i] >= 32 && bytes[i] != 127) || bytes[i]
                    == 9);
            assert(!is_header_byte(bytes[i]));
            assert(!is_header_text(text));
        }
    }
}

/// A value stays where it lies within its bounds, and otherwise becomes the bound that it lies
/// beyond. What is not a number stays so.
pub open spec fn is_moved_into(raw: Real32, high: nat, value: Real32) -> bool {
    if raw is NaN {
        value is NaN
    } else if raw.place() < 0 {
        value == Real32::zero()
    } else if raw.place() > Real32::count(high).place() {
        value == Real32::count(high)
    } else {
        value == raw
    }
}

/// Sampling options are changed only where they lie outside of their ranges, and then to the
/// nearer end: temperature and penalty lie from zero to two, the share of tokens from zero to
/// one, and the number of tokens to choose from lies from one to two hundred. The length of the
/// reply is not changed.
pub proof fn options_change_only_outside_of_their_ranges(raw: Sampling, options: Sampling)
    requires
        is_clamped(raw, options),
    ensures
        is_moved_into(raw.temperature@, 2, options.temperature@),
        is_moved_into(raw.top_p@, 1, options.top_p@),
        is_moved_into(raw.repetition_penalty@, 2, options.repetition_penalty@),
        1 <= raw.top_k <= 200 ==> options.top_k == raw.top_k,
        raw.top_k < 1 ==> options.top_k == 1,
        raw.top_k > 200 ==> options.top_k == 200,
        options.max_tokens == raw.max_tokens,
{
}

/// A request for a completion is posted to the completions of the server, and its document holds
/// what was asked for and nothing else: the model, the messages, whether to stream, the sampling
/// options, and the tools and the format just where they are given.
pub proof fn a_completion_request_says_what_is_asked<F: Fn(Binary32) -> serde_json::Value>(
    client: VllmClient,
    model: Seq<char>,
    messages: Seq<Json>,
    stream: bool,
    sampling: Sampling,
    number: F,
    tools: Option<Vec<serde_json::Value>>,
    response_format: Option<serde_json::Value>,
    request: ApiRequest,
) -> (made: (Sampling, SamplingNumbers))
    requires
        asks_for_completion(
            client,
            model,
            messages,
            stream,
            sampling,
            number,
            tools,
            response_format,
            request,
        ),
    ensures
        request.url@ == client.base_url@ + "/v1/chat/completions"@,
        request.method == HttpMethod::Post,
        is_clamped(sampling, made.0),
        call_ensures(number, (made.0.temperature,), made.1.temperature),
        call_ensures(number, (made.0.top_p,), made.1.top_p),
        call_ensures(number, (made.0.repetition_penalty,), made.1.repetition_penalty),
        request.body is Some,
        contents(request.body->0) is Object,
        ({
            let sent = contents(request.body->0)->Object_0;
            &&& forall|name: Seq<char>| #[trigger]
                sent.contains_key(name) <==> name == "model"@ || name == "messages"@ || name
                    == "stream"@ || name == "temperature"@ || name == "top_p"@ || name == "top_k"@
                    || name == "repetition_penalty"@ || name == "max_tokens"@ || (name == "tools"@
                    && tools is Some) || (name == "response_format"@ && response_format is Some)
            &&& sent["model"@] == Json::Text(model)
            &&& sent["messages"@] == Json::List(messages)
            &&& sent["stream"@] == Json::Bool(stream)
            &&& sent["temperature"@] == contents(made.1.temperature)
            &&& sent["top_p"@] == contents(made.1.top_p)
            &&& sent["top_k"@] == Json::Integer(made.0.top_k as int)
            &&& sent["repetition_penalty"@] == contents(made.1.repetition_penalty)
            &&& sent["max_tokens"@] == Json::Integer(sampling.max_tokens as int)
            &&& tools matches Some(list) ==> sent["tools"@] == Json::List(all_contents(list@))
            &&& response_format matches Some(format) ==> sent["response_format"@] == contents(
                format,
            )
        }),
{
    let made = lemma_completion(
        client,
        model,
        messages,
        stream,
        sampling,
        number,
        tools,
        response_format,
        request,
    );
    lemma_names_differ();
    made
}

/// A message of the user has the role of the user and the prompt as its content, and nothing
/// else. A list of documents holds what each of them holds.
pub proof fn a_prompt_is_a_message_of_the_user(prompt: Seq<char>, values: Seq<serde_json::Value>)
    ensures
        user_message(prompt) is Object,
        ({
            let message = user_message(prompt)->Object_0;
            &&& forall|name: Seq<char>| #[trigger]
                message.contains_key(name) <==> name == "role"@ || name == "content"@
            &&& message["role"@] == Json::Text("user"@)
            &&& message["content"@] == Json::Text(prompt)
        }),
        all_contents(values).len() == values.len(),
        forall|i: int| 0 <= i < values.len() ==> #[trigger] all_contents(values)[i] == contents(
            values[i],
        ),
{
    reveal_strlit("role");
    reveal_strlit("content");
    assert("role"@.len() == 4 && "content"@.len() == 7);
}

/// The first of the replies is the one that counts: its content is the text, empty where it has
/// none, and its calls are the calls. Without a reply there is neither text nor calls.
pub proof fn the_first_reply_counts(response: ChatCompletionResponse)
    ensures
        response.choices@.len() == 0 ==> response.text().len() == 0
            && response.tool_calls().len() == 0,
        response.choices@.len() > 0 ==> {
            let message = response.choices@[0].message;
            &&& message.content matches Some(content) ==> response.text() == content@
            &&& message.content is None ==> response.text().len() == 0
            &&& message.tool_calls matches Some(calls) ==> response.tool_calls() == calls@
            &&& message.tool_calls is None ==> response.tool_calls().len() == 0
        },
{
}

/// The names of the models are those of the cards, one for each and in their order.
pub proof fn every_model_is_listed(models: Seq<ModelCard>)
    ensures
        model_ids(models).len() == models.len(),
        forall|i: int| 0 <= i < models.len() ==> #[trigger] model_ids(models)[i] == models[i].id,
{
}

/// A status from 200 up to 299 is a success, and no other. A server that answers the health
/// request is healthy just when that status is a success; otherwise the status of the models
/// request decides, or its error is the answer.
pub proof fn health_goes_by_the_status<E>(health: Option<u16>, models: Result<u16, E>, status: u16)
    ensures
        is_success(status) <==> status / 100 == 2,
        health matches Some(code) ==> health_outcome(health, models) == Ok::<bool, E>(
            code / 100 == 2,
        ),
        health is None && models is Ok ==> health_outcome(health, models) == Ok::<bool, E>(
            models->Ok_0 / 100 == 2,
        ),
        health is None && models is Err ==> health_outcome(health, models) == Err::<bool, E>(
            models->Err_0,
        ),
{
}

} // verus!
