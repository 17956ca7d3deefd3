use easement::gateway::{
    answer_call, answer_call_with, answer_request, call_reply, call_reply_with, params_failure,
    parse_failure, tools_reply, Answer, CallAnswer, JsonRpcRequest, JsonRpcResponse,
    ToolCallParams, ToolResult,
};
use easement::json::Json;
use easement::serial::{read, render};

fn request(method: &str) -> JsonRpcRequest {
    JsonRpcRequest {
        id: Some(Json::Unsigned(7)),
        method: method.to_owned(),
        params: Json::text("params"),
    }
}
fn params(name: &str, arguments: &str) -> ToolCallParams {
    ToolCallParams { name: name.to_owned(), arguments: read(arguments).unwrap() }
}
fn result(response: &JsonRpcResponse) -> String {
    assert_eq!(response.jsonrpc, "2.0");
    assert!(response.error.is_none());
    render(response.result.as_ref().unwrap()).unwrap()
}
fn error(response: &JsonRpcResponse) -> (i32, &str) {
    assert!(response.result.is_none());
    let e = response.error.as_ref().unwrap();
    (e.code, e.message.as_str())
}
fn reply(answer: Answer) -> JsonRpcResponse {
    match answer {
        Answer::Reply(r) => r,
        other => panic!("expected a reply, got {other:?}"),
    }
}
fn call_answer(answer: CallAnswer) -> JsonRpcResponse {
    match answer {
        CallAnswer::Reply(r) => r,
        other => panic!("expected a reply, got {other:?}"),
    }
}
fn ran(output: &str, exit_code: i32) -> ToolResult {
    ToolResult { output: output.to_owned(), exit_code, changes: None }
}
fn content(text: &str) -> String {
    render(&read(&format!("{{\"content\":[{{\"type\":\"text\",\"text\":{text:?}}}]}}")).unwrap()).unwrap()
}

#[test]
fn requests_are_answered() {
    let greeted = reply(answer_request(request("initialize")));
    assert_eq!(greeted.id.as_uint(), Some(7));
    assert_eq!(
        result(&greeted),
        "{\"capabilities\":{\"tools\":{}},\"protocolVersion\":\"2024-11-05\",\"serverInfo\":{\"name\":\"easement\",\"version\":\"0.1.0\"}}"
    );
    let noted = JsonRpcRequest { id: None, ..request("notifications/initialized") };
    let noted = reply(answer_request(noted));
    assert!(matches!(noted.id, Json::Null));
    assert_eq!(result(&noted), "{}");
    let unknown = reply(answer_request(request("other")));
    assert_eq!(error(&unknown), (-32601, "Method not found: other"));
    assert!(matches!(answer_request(request("tools/call")), Answer::Call { id, params }
        if id.as_uint() == Some(7) && params.as_text() == Some("params")));
    assert_eq!(error(&parse_failure("bad")), (-32700, "Parse error: bad"));
    assert_eq!(error(&params_failure(Json::Null, "bad")), (-32602, "Invalid params: bad"));
}

#[test]
fn the_tools_are_listed() {
    let listed = reply(answer_request(request("tools/list")));
    let Some(Json::Array(tools)) = listed.result.as_ref().unwrap().get("tools") else {
        panic!("expected a list of tools")
    };
    let names: Vec<_> = tools.iter().map(|t| t.named("name")).collect();
    assert_eq!(names, ["approve", "call", "tools"]);
    let schema = |i: usize| render(tools[i].get("inputSchema").unwrap().get("required").unwrap()).unwrap();
    assert_eq!(schema(0), "[\"tool_name\",\"input\"]");
    assert_eq!(schema(1), "[\"who\",\"f\"]");
    assert_eq!(schema(2), "[]");
    assert_eq!(
        render(tools[1].get("inputSchema").unwrap().get("properties").unwrap().get("f").unwrap()).unwrap(),
        "{\"description\":\"The function name (e.g. zsh, screenshot, tabs_create).\",\"type\":\"string\"}"
    );
}

#[test]
fn approvals_allow_the_input() {
    let answer = call_answer(answer_call(Json::Null, params("approve", "{\"input\":{\"x\":1}}")));
    assert_eq!(
        result(&answer),
        content("{\"behavior\":\"allow\",\"updatedInput\":{\"x\":1}}")
    );
    let answer = call_answer(answer_call(Json::Null, params("approve", "{\"y\":1}")));
    assert_eq!(
        result(&answer),
        content("{\"behavior\":\"allow\",\"updatedInput\":{\"y\":1}}")
    );
    assert!(matches!(
        answer_call_with(Json::Null, params("approve", "{}"), None),
        CallAnswer::Unwritable
    ));
}

#[test]
fn calls_need_a_client_and_a_function() {
    for arguments in ["{}", "{\"who\":\"a\"}", "{\"f\":\"b\"}", "{\"who\":\"\",\"f\":\"b\"}", "{\"who\":1,\"f\":\"b\"}"] {
        let answer = call_answer(answer_call(Json::Null, params("call", arguments)));
        assert_eq!(error(&answer), (-32602, "call requires who and f"));
    }
    assert!(matches!(
        answer_call(Json::Unsigned(1), params("tools", "{}")),
        CallAnswer::Tools { id } if id.as_uint() == Some(1)
    ));
    let CallAnswer::Call { id, f, args } =
        answer_call(Json::Unsigned(1), params("call", "{\"who\":\"a\",\"f\":\"b\",\"args\":[1],\"more\":2}"))
    else {
        panic!("expected a call")
    };
    assert_eq!((id.as_uint(), f.as_str()), (Some(1), "b"));
    assert_eq!(render(&args).unwrap(), "{\"args\":[1],\"f\":\"b\",\"who\":\"a\"}");
    let CallAnswer::Call { args, .. } = answer_call(Json::Null, params("any", "{\"who\":\"a\",\"f\":\"b\"}")) else {
        panic!("expected a call")
    };
    assert_eq!(render(&args).unwrap(), "{\"args\":{},\"f\":\"b\",\"who\":\"a\"}");
}

#[test]
fn results_are_passed_on() {
    let reply = |f: &str, r: Option<ToolResult>| result(&call_reply(Json::Null, f, r));
    assert_eq!(reply("zsh", Some(ran("out", 0))), content("out"));
    assert_eq!(reply("zsh", Some(ran("out", -1))), content("out\n[exit code: -1]"));
    assert_eq!(reply("screenshot", Some(ran("[1]", 0))), "{\"content\":[1]}");
    assert_eq!(reply("view_image", Some(ran("{}", 0))), "{\"content\":{}}");
    assert_eq!(reply("view_image", Some(ran("raw", 0))), content("raw"));
    assert_eq!(reply("view_image", Some(ran("[1]", 2))), content("[1]\n[exit code: 2]"));
    assert_eq!(reply("zsh", Some(ran("[1]", 0))), content("[1]"));
    assert_eq!(
        reply("zsh", None),
        "{\"content\":[{\"text\":\"tool execution failed: reply dropped\",\"type\":\"text\"}],\"isError\":true}"
    );
    let held = call_reply_with(Json::Null, "screenshot", &ran("ignored", 0), Some(Json::Unsigned(5)));
    assert_eq!(result(&held), "{\"content\":5}");
}

#[test]
fn listings_are_passed_on() {
    assert_eq!(result(&tools_reply(Json::Null, Some("[]"))), content("[]"));
    assert_eq!(
        result(&tools_reply(Json::Null, None)),
        "{\"content\":[{\"text\":\"tool discovery failed\",\"type\":\"text\"}],\"isError\":true}"
    );
}
