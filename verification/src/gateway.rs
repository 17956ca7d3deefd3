//! The tool gateway: what each request is answered.

use crate::json::{elements, lemma_elements, Json, Val};
use crate::serial::{compact, parsed, read, render};
use crate::text::{joined, same_text, signed_decimal, signed_text};
use vstd::prelude::*;

verus! {

/// An error reply.
#[derive(Debug)]
pub struct JsonRpcError {
    pub code: i32,
    pub message: String,
}

/// A reply, with either a result or an error.
#[derive(Debug)]
pub struct JsonRpcResponse {
    pub jsonrpc: String,
    pub id: Json,
    pub result: Option<Json>,
    pub error: Option<JsonRpcError>,
}

/// The model of a reply.
pub struct ResponseV {
    pub jsonrpc: Seq<char>,
    pub id: Val,
    pub result: Option<Val>,
    pub error: Option<(int, Seq<char>)>,
}

impl JsonRpcResponse {
    pub open spec fn view(&self) -> ResponseV {
        ResponseV {
            jsonrpc: self.jsonrpc@,
            id: self.id@,
            result: match self.result {
                Some(r) => Some(r@),
                None => None,
            },
            error: match self.error {
                Some(e) => Some((e.code as int, e.message@)),
                None => None,
            },
        }
    }
}

/// The reply with a result.
pub open spec fn result_reply(id: Val, result: Val) -> ResponseV {
    ResponseV { jsonrpc: "2.0"@, id, result: Some(result), error: None }
}

/// The reply with an error.
pub open spec fn error_reply(id: Val, code: int, message: Seq<char>) -> ResponseV {
    ResponseV { jsonrpc: "2.0"@, id, result: None, error: Some((code, message)) }
}

/// Replies with a result.
pub fn jsonrpc_response(id: Json, result: Json) -> (response: JsonRpcResponse)
    ensures
        response@ == result_reply(id@, result@),
{
    JsonRpcResponse { jsonrpc: "2.0".to_owned(), id, result: Some(result), error: None }
}

/// Replies with an error.
pub fn jsonrpc_error(id: Json, code: i32, message: String) -> (response: JsonRpcResponse)
    ensures
        response@ == error_reply(id@, code as int, message@),
{
    JsonRpcResponse {
        jsonrpc: "2.0".to_owned(),
        id,
        result: None,
        error: Some(JsonRpcError { code, message }),
    }
}

/// A request. The identity may be left out.
#[derive(Debug)]
pub struct JsonRpcRequest {
    pub id: Option<Json>,
    pub method: String,
    pub params: Json,
}

/// The parameters of a call of a tool.
#[derive(Debug)]
pub struct ToolCallParams {
    pub name: String,
    pub arguments: Json,
}

/// What a tool answered.
#[derive(Debug)]
pub struct ToolResult {
    pub output: String,
    pub exit_code: i32,
    pub changes: Option<Json>,
}

// ---------------------------------------------------------------------------
// Contents
// ---------------------------------------------------------------------------

/// A list of one value.
pub open spec fn single(value: Val) -> Val {
    Val::Array(seq![value])
}

fn one(value: Json) -> (list: Json)
    ensures
        list@ == single(value@),
{
    let mut items: Vec<Json> = Vec::new();
    items.push(value);
    proof {
        lemma_elements(items@);
        assert(elements(items@) =~= seq![value@]);
    }
    Json::Array(items)
}

/// A result that is a text.
pub open spec fn text_result(text: Seq<char>) -> Val {
    Val::empty_object().with(
        "content"@,
        single(
            Val::empty_object().with("type"@, Val::Text("text"@)).with("text"@, Val::Text(text)),
        ),
    )
}

/// A result that is the text of a failure.
pub open spec fn failure_result(text: Seq<char>) -> Val {
    text_result(text).with("isError"@, Val::Bool(true))
}

fn text_content(text: &str) -> (result: Json)
    ensures
        result@ == text_result(text@),
{
    Json::object().with(
        "content",
        one(Json::object().with("type", Json::text("text")).with("text", Json::text(text))),
    )
}

fn failure_content(text: &str) -> (result: Json)
    ensures
        result@ == failure_result(text@),
{
    text_content(text).with("isError", Json::Bool(true))
}

/// What the gateway says of itself.
pub open spec fn greeting() -> Val {
    Val::empty_object().with("protocolVersion"@, Val::Text("2024-11-05"@)).with(
        "capabilities"@,
        Val::empty_object().with("tools"@, Val::empty_object()),
    ).with(
        "serverInfo"@,
        Val::empty_object().with("name"@, Val::Text("easement"@)).with(
            "version"@,
            Val::Text("0.1.0"@),
        ),
    )
}

fn greet() -> (result: Json)
    ensures
        result@ == greeting(),
{
    Json::object().with("protocolVersion", Json::text("2024-11-05")).with(
        "capabilities",
        Json::object().with("tools", Json::object()),
    ).with(
        "serverInfo",
        Json::object().with("name", Json::text("easement")).with("version", Json::text("0.1.0")),
    )
}

/// The schema of an argument.
pub open spec fn argument(kind: Seq<char>, description: Seq<char>) -> Val {
    Val::empty_object().with("type"@, Val::Text(kind)).with("description"@, Val::Text(description))
}

fn argument_json(kind: &str, description: &str) -> (value: Json)
    ensures
        value@ == argument(kind@, description@),
{
    Json::object().with("type", Json::text(kind)).with("description", Json::text(description))
}

/// The description of a tool.
pub open spec fn tool(
    name: Seq<char>,
    description: Seq<char>,
    properties: Val,
    required: Seq<Val>,
) -> Val {
    Val::empty_object().with("name"@, Val::Text(name)).with(
        "description"@,
        Val::Text(description),
    ).with(
        "inputSchema"@,
        Val::empty_object().with("type"@, Val::Text("object"@)).with("properties"@, properties).with(
            "required"@,
            Val::Array(required),
        ),
    )
}

fn tool_json(name: &str, description: &str, properties: Json, required: Vec<Json>) -> (value: Json)
    ensures
        value@ == tool(name@, description@, properties@, elements(required@)),
{
    Json::object().with("name", Json::text(name)).with("description", Json::text(description)).with(
        "inputSchema",
        Json::object().with("type", Json::text("object")).with("properties", properties).with(
            "required",
            Json::Array(required),
        ),
    )
}

/// The tools that the gateway offers: one for approval, one to call a function of
/// a connected client, and one to find out what functions there are.
pub open spec fn offered_tools() -> Val {
    Val::empty_object().with(
        "tools"@,
        Val::Array(
            seq![
                tool(
                    "approve"@,
                    "Request human approval for a tool call"@,
                    Val::empty_object().with(
                        "tool_name"@,
                        argument("string"@, "Name of the tool requesting approval"@),
                    ).with("input"@, argument("object"@, "Input arguments for the tool"@)).with(
                        "tool_use_id"@,
                        argument("string"@, "Optional tool use ID"@),
                    ),
                    seq![Val::Text("tool_name"@), Val::Text("input"@)],
                ),
                tool(
                    "call"@,
                    "Call a function on a connected client. Use tools() first to discover available functions. The function is identified by who (the client) and f (the function name). Arguments are passed as args."@,
                    Val::empty_object().with(
                        "who"@,
                        argument("string"@, "The client to call (e.g. wicket, shotgun)."@),
                    ).with(
                        "f"@,
                        argument(
                            "string"@,
                            "The function name (e.g. zsh, screenshot, tabs_create)."@,
                        ),
                    ).with("args"@, argument("object"@, "Arguments to pass to the function."@)),
                    seq![Val::Text("who"@), Val::Text("f"@)],
                ),
                tool(
                    "tools"@,
                    "Discover available functions from all connected clients. Returns a list of { who, f, description } for every function that can be called right now."@,
                    Val::empty_object(),
                    Seq::empty(),
                ),
            ],
        ),
    )
}

fn texts_json(a: &str, b: &str) -> (items: Vec<Json>)
    ensures
        elements(items@) == seq![Val::Text(a@), Val::Text(b@)],
{
    let mut items: Vec<Json> = Vec::new();
    items.push(Json::text(a));
    items.push(Json::text(b));
    proof {
        lemma_elements(items@);
        assert(elements(items@) =~= seq![Val::Text(a@), Val::Text(b@)]);
    }
    items
}

fn offer() -> (result: Json)
    ensures
        result@ == offered_tools(),
{
    let approve = tool_json(
        "approve",
        "Request human approval for a tool call",
        Json::object().with(
            "tool_name",
            argument_json("string", "Name of the tool requesting approval"),
        ).with("input", argument_json("object", "Input arguments for the tool")).with(
            "tool_use_id",
            argument_json("string", "Optional tool use ID"),
        ),
        texts_json("tool_name", "input"),
    );
    let call = tool_json(
        "call",
        "Call a function on a connected client. Use tools() first to discover available functions. The function is identified by who (the client) and f (the function name). Arguments are passed as args.",
        Json::object().with(
            "who",
            argument_json("string", "The client to call (e.g. wicket, shotgun)."),
        ).with(
            "f",
            argument_json("string", "The function name (e.g. zsh, screenshot, tabs_create)."),
        ).with("args", argument_json("object", "Arguments to pass to the function.")),
        texts_json("who", "f"),
    );
    let nothing: Vec<Json> = Vec::new();
    let tools = tool_json(
        "tools",
        "Discover available functions from all connected clients. Returns a list of { who, f, description } for every function that can be called right now.",
        Json::object(),
        nothing,
    );
    let mut items: Vec<Json> = Vec::new();
    items.push(approve);
    items.push(call);
    items.push(tools);
    proof {
        lemma_elements(items@);
        assert(elements(items@) =~= seq![approve@, call@, tools@]);
    }
    Json::object().with("tools", Json::Array(items))
}

// ---------------------------------------------------------------------------
// Requests
// ---------------------------------------------------------------------------

/// What becomes of a request.
#[derive(Debug)]
pub enum Answer {
    /// It is answered.
    Reply(JsonRpcResponse),
    /// It calls a tool, with these parameters.
    Call { id: Json, params: Json },
}

/// The model of what becomes of a request.
pub enum AnswerV {
    Reply(ResponseV),
    Call(Val, Val),
}

impl Answer {
    pub open spec fn view(&self) -> AnswerV {
        match self {
            Answer::Reply(r) => AnswerV::Reply(r@),
            Answer::Call { id, params } => AnswerV::Call(id@, params@),
        }
    }
}

/// The identity of a request, or null.
pub open spec fn request_id(id: Option<Json>) -> Val {
    match id {
        Some(v) => v@,
        None => Val::Null,
    }
}

/// What becomes of a request.
pub open spec fn request_answer(request: JsonRpcRequest) -> AnswerV {
    let id = request_id(request.id);
    let method = request.method@;
    if method == "initialize"@ {
        AnswerV::Reply(result_reply(id, greeting()))
    } else if method == "tools/list"@ {
        AnswerV::Reply(result_reply(id, offered_tools()))
    } else if method == "tools/call"@ {
        AnswerV::Call(id, request.params@)
    } else if method == "notifications/initialized"@ {
        AnswerV::Reply(result_reply(id, Val::empty_object()))
    } else {
        AnswerV::Reply(error_reply(id, -32601, "Method not found: "@ + method))
    }
}

/// Answers what is no request.
pub fn parse_failure(error: &str) -> (response: JsonRpcResponse)
    ensures
        response@ == error_reply(Val::Null, -32700, "Parse error: "@ + error@),
{
    jsonrpc_error(Json::Null, -32700, joined("Parse error: ", error))
}

/// Answers a request, unless it calls a tool.
pub fn answer_request(request: JsonRpcRequest) -> (answer: Answer)
    ensures
        answer@ == request_answer(request),
{
    let id: Json = match request.id {
        Some(v) => v,
        None => Json::Null,
    };
    let method: &str = request.method.as_str();
    if same_text(method, "initialize") {
        Answer::Reply(jsonrpc_response(id, greet()))
    } else if same_text(method, "tools/list") {
        Answer::Reply(jsonrpc_response(id, offer()))
    } else if same_text(method, "tools/call") {
        Answer::Call { id, params: request.params }
    } else if same_text(method, "notifications/initialized") {
        Answer::Reply(jsonrpc_response(id, Json::object()))
    } else {
        Answer::Reply(jsonrpc_error(id, -32601, joined("Method not found: ", method)))
    }
}

/// What becomes of a call of a tool.
#[derive(Debug)]
pub enum CallAnswer {
    /// It is answered.
    Reply(JsonRpcResponse),
    /// The approval cannot be written.
    Unwritable,
    /// It asks for the functions of the clients.
    Tools { id: Json },
    /// It calls a function of a client.
    Call { id: Json, f: String, args: Json },
}

/// The model of what becomes of a call of a tool.
pub enum CallAnswerV {
    Reply(ResponseV),
    Unwritable,
    Tools(Val),
    Call(Val, Seq<char>, Val),
}

impl CallAnswer {
    pub open spec fn view(&self) -> CallAnswerV {
        match self {
            CallAnswer::Reply(r) => CallAnswerV::Reply(r@),
            CallAnswer::Unwritable => CallAnswerV::Unwritable,
            CallAnswer::Tools { id } => CallAnswerV::Tools(id@),
            CallAnswer::Call { id, f, args } => CallAnswerV::Call(id@, f@, args@),
        }
    }
}

/// An approval: the call is allowed, with the input that it was asked for, or
/// else with all its arguments.
pub open spec fn approval(arguments: Val) -> Val {
    Val::empty_object().with("behavior"@, Val::Text("allow"@)).with(
        "updatedInput"@,
        match arguments.get("input"@) {
            Some(v) => v,
            None => arguments,
        },
    )
}

/// What is dispatched for a call of a function.
pub open spec fn dispatched_args(who: Seq<char>, f: Seq<char>, args: Val) -> Val {
    Val::empty_object().with("who"@, Val::Text(who)).with("f"@, Val::Text(f)).with("args"@, args)
}

/// What becomes of a call of a tool, where `written` is the text of its approval.
pub open spec fn call_answer(
    id: Val,
    name: Seq<char>,
    arguments: Val,
    written: Option<Seq<char>>,
) -> CallAnswerV {
    let who = arguments.named("who"@);
    let f = arguments.named("f"@);
    if name == "approve"@ {
        match written {
            Some(text) => CallAnswerV::Reply(result_reply(id, text_result(text))),
            None => CallAnswerV::Unwritable,
        }
    } else if name == "tools"@ {
        CallAnswerV::Tools(id)
    } else if who.len() == 0 || f.len() == 0 {
        CallAnswerV::Reply(error_reply(id, -32602, "call requires who and f"@))
    } else {
        CallAnswerV::Call(
            id,
            f,
            dispatched_args(
                who,
                f,
                match arguments.get("args"@) {
                    Some(v) => v,
                    None => Val::empty_object(),
                },
            ),
        )
    }
}

fn approve(arguments: &Json) -> (value: Json)
    ensures
        value@ == approval(arguments@),
{
    let input: Json = match arguments.get("input") {
        Some(v) => v.copy(),
        None => arguments.copy(),
    };
    Json::object().with("behavior", Json::text("allow")).with("updatedInput", input)
}

/// Answers a call whose parameters cannot be read.
pub fn params_failure(id: Json, error: &str) -> (response: JsonRpcResponse)
    ensures
        response@ == error_reply(id@, -32602, "Invalid params: "@ + error@),
{
    jsonrpc_error(id, -32602, joined("Invalid params: ", error))
}

/// Answers a call of a tool, where `written` is the text of its approval.
pub fn answer_call_with(id: Json, params: ToolCallParams, written: Option<&str>) -> (answer:
    CallAnswer)
    ensures
        answer@ == call_answer(
            id@,
            params.name@,
            params.arguments@,
            match written {
                Some(s) => Some(s@),
                None => None,
            },
        ),
{
    let name: &str = params.name.as_str();
    if same_text(name, "approve") {
        return match written {
            Some(text) => CallAnswer::Reply(jsonrpc_response(id, text_content(text))),
            None => CallAnswer::Unwritable,
        };
    }
    if same_text(name, "tools") {
        return CallAnswer::Tools { id };
    }
    let who: &str = params.arguments.named("who");
    let f: &str = params.arguments.named("f");
    if who.is_empty() || f.is_empty() {
        return CallAnswer::Reply(
            jsonrpc_error(id, -32602, "call requires who and f".to_owned()),
        );
    }
    let args: Json = match params.arguments.get("args") {
        Some(v) => v.copy(),
        None => Json::object(),
    };
    let whole = Json::object().with("who", Json::text(who)).with("f", Json::text(f)).with(
        "args",
        args,
    );
    CallAnswer::Call { id, f: f.to_owned(), args: whole }
}

/// Answers a call of a tool, unless it needs the clients.
pub fn answer_call(id: Json, params: ToolCallParams) -> (answer: CallAnswer)
    ensures
        answer@ == call_answer(
            id@,
            params.name@,
            params.arguments@,
            compact(approval(params.arguments@)),
        ),
        answer !is Unwritable,
{
    match render(&approve(&params.arguments)) {
        Some(text) => answer_call_with(id, params, Some(text.as_str())),
        None => answer_call_with(id, params, None),
    }
}

/// Answers a call that asks for the functions of the clients. The listing may
/// have been dropped.
pub fn tools_reply(id: Json, listing: Option<&str>) -> (response: JsonRpcResponse)
    ensures
        response@ == result_reply(
            id@,
            match listing {
                Some(text) => text_result(text@),
                None => failure_result("tool discovery failed"@),
            },
        ),
{
    match listing {
        Some(text) => jsonrpc_response(id, text_content(text)),
        None => jsonrpc_response(id, failure_content("tool discovery failed")),
    }
}

/// The result of a call of a function. A picture is passed on as the content that
/// it is, where `content` is the value that the output holds; everything else is
/// a text, with its exit code where that is no success.
pub open spec fn call_result(
    f: Seq<char>,
    output: Seq<char>,
    exit_code: i32,
    content: Option<Val>,
) -> Val {
    if (f == "view_image"@ || f == "screenshot"@) && exit_code == 0 {
        match content {
            Some(v) => Val::empty_object().with("content"@, v),
            None => text_result(output),
        }
    } else if exit_code != 0 {
        text_result(
            output + "\n[exit code: "@ + signed_decimal(exit_code as int) + "]"@,
        )
    } else {
        text_result(output)
    }
}

/// Answers a call of a function, where `content` is the value that the output
/// holds.
pub fn call_reply_with(id: Json, f: &str, result: &ToolResult, content: Option<Json>) -> (response:
    JsonRpcResponse)
    ensures
        response@ == result_reply(
            id@,
            call_result(
                f@,
                result.output@,
                result.exit_code,
                match content {
                    Some(v) => Some(v@),
                    None => None,
                },
            ),
        ),
{
    let output: &str = result.output.as_str();
    if (same_text(f, "view_image") || same_text(f, "screenshot")) && result.exit_code == 0 {
        match content {
            Some(v) => jsonrpc_response(id, Json::object().with("content", v)),
            None => jsonrpc_response(id, text_content(output)),
        }
    } else if result.exit_code != 0 {
        let text = joined(
            joined(
                joined(output, "\n[exit code: ").as_str(),
                signed_text(result.exit_code).as_str(),
            ).as_str(),
            "]",
        );
        jsonrpc_response(id, text_content(text.as_str()))
    } else {
        jsonrpc_response(id, text_content(output))
    }
}

/// Answers a call of a function. The reply of the client may have been dropped.
pub fn call_reply(id: Json, f: &str, result: Option<ToolResult>) -> (response: JsonRpcResponse)
    ensures
        response@ == result_reply(
            id@,
            match result {
                Some(r) => call_result(f@, r.output@, r.exit_code, parsed(r.output@)),
                None => failure_result("tool execution failed: reply dropped"@),
            },
        ),
{
    match result {
        Some(r) => {
            let content = read(r.output.as_str());
            call_reply_with(id, f, &r, content)
        },
        None => jsonrpc_response(id, failure_content("tool execution failed: reply dropped")),
    }
}

/// Every request that is answered gets its identity back, and either a result or
/// an error.
pub proof fn law_a_reply_answers_its_request(request: JsonRpcRequest)
    ensures
        match request_answer(request) {
            AnswerV::Reply(r) => r.id == request_id(request.id) && (r.result is Some
                <==> r.error is None),
            AnswerV::Call(id, params) => id == request_id(request.id) && params == request.params@,
        },
{
}

// ---------------------------------------------------------------------------
// What a caller gets
// ---------------------------------------------------------------------------

/// A reply is seen as what it is: its identity, and its result or its error.
pub proof fn law_replies_are_seen_as_they_are(response: JsonRpcResponse)
    ensures
        response@.jsonrpc == response.jsonrpc@,
        response@.id == response.id@,
        match response.result {
            Some(r) => response@.result == Some(r@),
            None => response@.result is None,
        },
        match response.error {
            Some(e) => response@.error == Some((e.code as int, e.message@)),
            None => response@.error is None,
        },
{
}

/// What becomes of a request, and of a call, is seen as what it is.
pub proof fn law_answers_are_seen_as_they_are(answer: Answer, call: CallAnswer)
    ensures
        match answer {
            Answer::Reply(r) => answer@ == AnswerV::Reply(r@),
            Answer::Call { id, params } => answer@ == AnswerV::Call(id@, params@),
        },
        match call {
            CallAnswer::Reply(r) => call@ == CallAnswerV::Reply(r@),
            CallAnswer::Unwritable => call@ == CallAnswerV::Unwritable,
            CallAnswer::Tools { id } => call@ == CallAnswerV::Tools(id@),
            CallAnswer::Call { id, f, args } => call@ == CallAnswerV::Call(id@, f@, args@),
        },
{
}

/// Whether a result is one text and nothing else.
pub open spec fn is_text_result(result: Val, text: Seq<char>) -> bool {
    &&& result matches Val::Object(m) && m.dom() =~= set!["content"@]
    &&& is_text_content(result.at("content"@), text)
}

/// Whether a content is one text.
pub open spec fn is_text_content(content: Val, text: Seq<char>) -> bool {
    &&& content matches Val::Array(items)
    &&& items.len() == 1
    &&& items[0] matches Val::Object(m)
    &&& m.dom() =~= set!["type"@, "text"@]
    &&& m["type"@] == Val::Text("text"@)
    &&& m["text"@] == Val::Text(text)
}

proof fn lemma_text_result(text: Seq<char>)
    ensures
        is_text_result(text_result(text), text),
        ({
            let failure = failure_result(text);
            &&& failure matches Val::Object(m) && m.dom() =~= set!["content"@, "isError"@]
            &&& failure.at("isError"@) == Val::Bool(true)
            &&& is_text_content(failure.at("content"@), text)
        }),
{
    reveal_strlit("type");
    reveal_strlit("text");
    reveal_strlit("content");
    reveal_strlit("isError");
    assert("type"@.len() == 4 && "text"@.len() == 4 && "content"@.len() == 7
        && "isError"@.len() == 7);
    assert("type"@[1] != "text"@[1]);
    assert("content"@[0] != "isError"@[0]);
}

/// A failure is shown: whatever the function, the text of the reply to a call that
/// did not exit with zero is its output, a newline and the exit code in brackets,
/// whatever value the output holds.
pub proof fn law_failures_are_shown(
    f: Seq<char>,
    output: Seq<char>,
    exit_code: i32,
    content: Option<Val>,
)
    requires
        exit_code != 0,
    ensures
        is_text_result(
            call_result(f, output, exit_code, content),
            output + "\n[exit code: "@ + signed_decimal(exit_code as int) + "]"@,
        ),
{
    lemma_text_result(output + "\n[exit code: "@ + signed_decimal(exit_code as int) + "]"@);
}

/// A success is passed on: a picture as the content that it is, where the output
/// holds one, and everything else as the text of the output and nothing more.
pub proof fn law_successes_are_passed_on(f: Seq<char>, output: Seq<char>, content: Option<Val>)
    ensures
        ({
            let result = call_result(f, output, 0, content);
            if (f == "view_image"@ || f == "screenshot"@) && content is Some {
                result matches Val::Object(m) && m.dom() =~= set!["content"@] && m["content"@]
                    == content->0
            } else {
                is_text_result(result, output)
            }
        }),
{
    lemma_text_result(output);
}

/// A request gets what its method asks for: the gateway names itself, lists its
/// tools, takes note, or hands over the parameters of a call unchanged. Any other
/// method is not found, and named.
pub proof fn law_requests_are_answered_by_their_method(request: JsonRpcRequest)
    ensures
        ({
            let id = match request.id {
                Some(v) => v@,
                None => Val::Null,
            };
            let answer = request_answer(request);
            let method = request.method@;
            if method == "tools/call"@ {
                answer == AnswerV::Call(id, request.params@)
            } else {
                &&& answer matches AnswerV::Reply(r) && r.jsonrpc == "2.0"@ && r.id == id && {
                    if method == "initialize"@ {
                        &&& r.error is None
                        &&& r.result matches Some(v) && v.at("serverInfo"@).text_at("name"@) == Some(
                            "easement"@,
                        ) && v.text_at("protocolVersion"@) == Some("2024-11-05"@) && v.at(
                            "capabilities"@,
                        ).at("tools"@) is Object
                    } else if method == "tools/list"@ {
                        r.error is None && r.result == Some(offered_tools())
                    } else if method == "notifications/initialized"@ {
                        r.error is None && r.result == Some(Val::Object(Map::empty()))
                    } else {
                        r.result is None && r.error == Some(
                            (-32601int, "Method not found: "@ + method),
                        )
                    }
                }
            }
        }),
{
    reveal_strlit("initialize");
    reveal_strlit("tools/list");
    reveal_strlit("tools/call");
    reveal_strlit("notifications/initialized");
    reveal_strlit("serverInfo");
    reveal_strlit("capabilities");
    reveal_strlit("protocolVersion");
    reveal_strlit("name");
    reveal_strlit("version");
    reveal_strlit("tools");
    assert("initialize"@.len() == 10 && "tools/list"@.len() == 10 && "tools/call"@.len() == 10
        && "notifications/initialized"@.len() == 25 && "serverInfo"@.len() == 10
        && "capabilities"@.len() == 12 && "protocolVersion"@.len() == 15 && "name"@.len() == 4
        && "version"@.len() == 7 && "tools"@.len() == 5);
    assert("initialize"@[0] != "tools/list"@[0]);
    assert("initialize"@[0] != "tools/call"@[0]);
    assert("initialize"@[0] != "serverInfo"@[0]);
    assert("tools/list"@[6] != "tools/call"@[6]);
    assert("tools/list"@[0] != "serverInfo"@[0]);
    assert("tools/call"@[0] != "serverInfo"@[0]);
}

/// The gateway offers three tools: one that asks for approval of a tool and its
/// input, one that calls a function of a client, and one that lists the functions.
/// Each has an object of arguments, and says which of them it needs.
pub proof fn law_three_tools_are_offered()
    ensures
        offered_tools().at("tools"@) matches Val::Array(t) && t.len() == 3 && {
            &&& t[0].text_at("name"@) == Some("approve"@)
            &&& t[1].text_at("name"@) == Some("call"@)
            &&& t[2].text_at("name"@) == Some("tools"@)
            &&& forall|i: int|
                0 <= i < 3 ==> (#[trigger] t[i]).at("inputSchema"@).text_at("type"@) == Some(
                    "object"@,
                )
            &&& t[0].at("inputSchema"@).at("required"@) == Val::Array(
                seq![Val::Text("tool_name"@), Val::Text("input"@)],
            )
            &&& t[1].at("inputSchema"@).at("required"@) == Val::Array(
                seq![Val::Text("who"@), Val::Text("f"@)],
            )
            &&& t[2].at("inputSchema"@).at("required"@) == Val::Array(Seq::empty())
            &&& forall|k: Seq<char>|
                t[0].at("inputSchema"@).at("properties"@).get(k) is Some <==> k == "tool_name"@ || k
                    == "input"@ || k == "tool_use_id"@
            &&& forall|k: Seq<char>|
                t[1].at("inputSchema"@).at("properties"@).get(k) is Some <==> k == "who"@ || k == "f"@
                    || k == "args"@
            &&& t[2].at("inputSchema"@).at("properties"@) == Val::Object(Map::empty())
        },
{
    reveal_strlit("tools");
    reveal_strlit("name");
    reveal_strlit("description");
    reveal_strlit("inputSchema");
    reveal_strlit("type");
    reveal_strlit("properties");
    reveal_strlit("required");
    assert("tools"@.len() == 5 && "name"@.len() == 4 && "description"@.len() == 11
        && "inputSchema"@.len() == 11 && "type"@.len() == 4 && "properties"@.len() == 10
        && "required"@.len() == 8);
    assert("name"@[0] != "type"@[0]);
    assert("description"@[0] != "inputSchema"@[0]);
}

/// An approval allows the call, with the input that was asked for, or else with
/// all the arguments.
pub proof fn law_an_approval_allows_the_input(arguments: Val)
    ensures
        approval(arguments) matches Val::Object(m) && m.dom() =~= set![
            "behavior"@,
            "updatedInput"@,
        ] && m["behavior"@] == Val::Text("allow"@) && m["updatedInput"@] == match arguments.get(
            "input"@,
        ) {
            Some(input) => input,
            None => arguments,
        },
{
    reveal_strlit("behavior");
    reveal_strlit("updatedInput");
    assert("behavior"@.len() == 8 && "updatedInput"@.len() == 12);
}

/// A call of a tool is approved, asks for the functions, or calls the function of
/// the client that it names, with its arguments unchanged; without a client or a
/// function it is refused.
pub proof fn law_calls_are_answered_by_their_tool(
    id: Val,
    name: Seq<char>,
    arguments: Val,
    written: Option<Seq<char>>,
)
    ensures
        ({
            let answer = call_answer(id, name, arguments, written);
            if name == "approve"@ {
                match written {
                    Some(text) => answer matches CallAnswerV::Reply(r) && r.jsonrpc == "2.0"@ && r.id
                        == id && r.error is None && r.result is Some && is_text_result(
                        r.result->0,
                        text,
                    ),
                    None => answer is Unwritable,
                }
            } else if name == "tools"@ {
                answer == CallAnswerV::Tools(id)
            } else {
                match (arguments.text_at("who"@), arguments.text_at("f"@)) {
                    (Some(who), Some(f)) => if who.len() > 0 && f.len() > 0 {
                        &&& answer matches CallAnswerV::Call(back, called, args)
                        &&& back == id
                        &&& called == f
                        &&& args matches Val::Object(m)
                        &&& m.dom() =~= set!["who"@, "f"@, "args"@]
                        &&& m["who"@] == Val::Text(who)
                        &&& m["f"@] == Val::Text(f)
                        &&& m["args"@] == match arguments.get("args"@) {
                            Some(v) => v,
                            None => Val::Object(Map::empty()),
                        }
                    } else {
                        is_refused_call(answer, id)
                    },
                    _ => is_refused_call(answer, id),
                }
            }
        }),
{
    reveal_strlit("approve");
    reveal_strlit("tools");
    reveal_strlit("who");
    reveal_strlit("f");
    reveal_strlit("args");
    assert("approve"@.len() == 7 && "tools"@.len() == 5 && "who"@.len() == 3 && "f"@.len() == 1
        && "args"@.len() == 4);
    if let Some(text) = written {
        lemma_text_result(text);
    }
}

/// Whether a call is refused because it names no client or no function.
pub open spec fn is_refused_call(answer: CallAnswerV, id: Val) -> bool {
    answer matches CallAnswerV::Reply(r) && r.jsonrpc == "2.0"@ && r.id == id && r.result is None
        && r.error == Some((-32602int, "call requires who and f"@))
}

/// A listing, a dropped listing and a dropped reply are one text each, and what
/// was dropped is marked as a failure.
pub proof fn law_texts_are_one_content(text: Seq<char>)
    ensures
        is_text_result(text_result(text), text),
        failure_result(text).get("isError"@) == Some(Val::Bool(true)),
        is_text_content(failure_result(text).at("content"@), text),
        text_result(text).get("isError"@) is None,
{
    lemma_text_result(text);
    reveal_strlit("content");
    reveal_strlit("isError");
    assert("content"@.len() == 7 && "isError"@.len() == 7);
    assert("content"@[0] != "isError"@[0]);
}

/// A reply has the identity that it was given, and a result or an error, as it was
/// given.
pub proof fn law_replies_carry_what_they_are_given(
    id: Val,
    result: Val,
    code: int,
    message: Seq<char>,
)
    ensures
        result_reply(id, result).jsonrpc == "2.0"@,
        result_reply(id, result).id == id,
        result_reply(id, result).result == Some(result),
        result_reply(id, result).error is None,
        error_reply(id, code, message).jsonrpc == "2.0"@,
        error_reply(id, code, message).id == id,
        error_reply(id, code, message).result is None,
        error_reply(id, code, message).error == Some((code, message)),
{
}

/// Every argument of the tools that are offered is of its kind, and every tool and
/// every argument is described.
pub proof fn law_arguments_have_their_kinds()
    ensures
        offered_tools().at("tools"@) matches Val::Array(t) && {
            let approve = t[0].at("inputSchema"@).at("properties"@);
            let call = t[1].at("inputSchema"@).at("properties"@);
            &&& is_argument(approve.at("tool_name"@), "string"@)
            &&& is_argument(approve.at("input"@), "object"@)
            &&& is_argument(approve.at("tool_use_id"@), "string"@)
            &&& is_argument(call.at("who"@), "string"@)
            &&& is_argument(call.at("f"@), "string"@)
            &&& is_argument(call.at("args"@), "object"@)
            &&& forall|i: int| 0 <= i < 3 ==> (#[trigger] t[i]).text_at("description"@) is Some
        },
        greeting().at("serverInfo"@).text_at("version"@) == Some("0.1.0"@),
{
    reveal_strlit("tools");
    reveal_strlit("name");
    reveal_strlit("description");
    reveal_strlit("inputSchema");
    reveal_strlit("type");
    reveal_strlit("properties");
    reveal_strlit("required");
    reveal_strlit("serverInfo");
    reveal_strlit("capabilities");
    reveal_strlit("protocolVersion");
    reveal_strlit("version");
    reveal_strlit("tool_name");
    reveal_strlit("input");
    reveal_strlit("tool_use_id");
    reveal_strlit("who");
    reveal_strlit("f");
    reveal_strlit("args");
    assert("tools"@.len() == 5 && "name"@.len() == 4 && "description"@.len() == 11
        && "inputSchema"@.len() == 11 && "type"@.len() == 4 && "properties"@.len() == 10
        && "required"@.len() == 8 && "serverInfo"@.len() == 10 && "capabilities"@.len() == 12
        && "protocolVersion"@.len() == 15 && "version"@.len() == 7 && "tool_name"@.len() == 9
        && "input"@.len() == 5 && "tool_use_id"@.len() == 11 && "who"@.len() == 3
        && "f"@.len() == 1 && "args"@.len() == 4);
    assert("tools"@[0] != "input"@[0]);
    assert("name"@[0] != "type"@[0]);
    assert("name"@[0] != "args"@[0]);
    assert("description"@[0] != "inputSchema"@[0]);
    assert("description"@[0] != "tool_use_id"@[0]);
    assert("inputSchema"@[0] != "tool_use_id"@[0]);
    assert("type"@[0] != "args"@[0]);
    assert("properties"@[0] != "serverInfo"@[0]);
}

/// Whether a value describes an argument of a kind.
pub open spec fn is_argument(v: Val, kind: Seq<char>) -> bool {
    v.text_at("type"@) == Some(kind) && v.text_at("description"@) is Some
}

/// A request without an identity has none, and every other has its own.
pub proof fn law_requests_have_their_identities(id: Option<Json>)
    ensures
        id matches Some(v) ==> request_id(id) == v@,
        id is None ==> request_id(id) == Val::Null,
{
}

} // verus!
