use flashcode::agent::{
    classify_answer, describe_call, handle_command, permission_answer, Agent, CallPlan,
    Permission, TurnAction, MAX_STEPS,
};
use flashcode::api::{ChatResult, FunctionCall, Message, ToolCall, Usage};
use flashcode::tools::{ArgField, ToolArgs};

fn reply(content: Option<&str>, calls: Vec<ToolCall>, total: u64) -> ChatResult {
    ChatResult {
        message: Message {
            role: "assistant".to_string(),
            content: content.map(String::from),
            tool_calls: if calls.is_empty() { None } else { Some(calls) },
            tool_call_id: None,
        },
        usage: Some(Usage { prompt_tokens: 0, completion_tokens: 0, total_tokens: total }),
    }
}

fn call(id: &str, name: &str, arguments: &str) -> ToolCall {
    ToolCall {
        id: id.to_string(),
        kind: "function".to_string(),
        function: FunctionCall { name: name.to_string(), arguments: arguments.to_string() },
    }
}

#[test]
fn new_agent_holds_system_prompt() {
    let a = Agent::new(false);
    assert_eq!(a.messages().len(), 1);
    assert_eq!(a.messages()[0].role, "system");
    assert!(a.messages()[0].content.as_deref().unwrap().starts_with("You are flashcode"));
    assert_eq!(a.session_tokens(), 0);
}

#[test]
fn turn_without_tools_is_done() {
    let mut a = Agent::new(false);
    assert!(matches!(a.begin_turn("hi"), TurnAction::RequestChat));
    assert!(matches!(a.record_reply(reply(Some("hello"), vec![], 5)), TurnAction::Done));
    assert_eq!(a.messages().len(), 3);
    assert_eq!(a.messages()[1].role, "user");
    assert_eq!(a.session_tokens(), 5);
}

#[test]
fn turn_with_tools_runs_them_and_asks_again() {
    let mut a = Agent::new(false);
    a.begin_turn("read it");
    let calls = match a.record_reply(reply(None, vec![call("c1", "read_file", "{\"path\":\"a.txt\"}")], 2)) {
        TurnAction::RunTools(calls) => calls,
        _ => panic!("expected tool calls"),
    };
    assert_eq!(calls.len(), 1);
    match a.plan_call(&calls[0]) {
        CallPlan::Run { description, args } => {
            assert_eq!(description, "read_file a.txt");
            assert_eq!(args.get_str("path").as_deref(), Some("a.txt"));
        }
        _ => panic!("read_file runs without asking"),
    }
    a.record_tool_result("c1", "     1\thi");
    let last = a.messages().last().unwrap();
    assert_eq!(last.role, "tool");
    assert_eq!(last.tool_call_id.as_deref(), Some("c1"));
    assert!(matches!(a.after_tools(), TurnAction::RequestChat));
}

#[test]
fn turn_stops_at_step_limit() {
    let mut a = Agent::new(true);
    a.begin_turn("loop");
    for i in 0..MAX_STEPS {
        assert!(matches!(a.record_reply(reply(None, vec![call("c", "search", "{}")], 1)), TurnAction::RunTools(_)));
        a.record_tool_result("c", "x");
        let next = a.after_tools();
        if i + 1 < MAX_STEPS {
            assert!(matches!(next, TurnAction::RequestChat));
        } else {
            assert!(matches!(next, TurnAction::StepLimit));
        }
    }
    assert_eq!(a.session_tokens(), MAX_STEPS as u64);
}

#[test]
fn mutating_calls_need_confirmation() {
    let mut a = Agent::new(false);
    let c = call("c", "write_file", "{\"path\":\"x\",\"content\":\"y\"}");
    match a.plan_call(&c) {
        CallPlan::Confirm { description, .. } => assert_eq!(description, "write_file x"),
        _ => panic!("write_file must ask"),
    }
    assert_eq!(a.apply_permission(Ok("n\n".to_string())).as_deref(), Some("Error: user denied this action."));
    assert_eq!(a.apply_permission(Ok(" YES \n".to_string())), None);
    assert_eq!(
        a.apply_permission(Err("closed".to_string())).as_deref(),
        Some("Error: could not read confirmation: closed")
    );
    assert_eq!(a.apply_permission(Ok("a\n".to_string())), None);
    // Allowing all switches the session to auto-approval.
    assert!(matches!(a.plan_call(&c), CallPlan::Run { .. }));
}

#[test]
fn unparsable_arguments_are_answered() {
    let a = Agent::new(false);
    match a.plan_call(&call("c", "read_file", "{not json")) {
        CallPlan::Reply(t) => {
            assert!(t.starts_with("Error: could not parse arguments for read_file: "));
            assert!(t.ends_with(". Raw: {not json"));
        }
        _ => panic!("expected an error reply"),
    }
}

#[test]
fn other_calls_are_described_by_their_json() {
    let a = Agent::new(true);
    match a.plan_call(&call("c", "bash", "{ \"command\" : \"ls\" }")) {
        CallPlan::Run { description, .. } => assert_eq!(description, "bash {\"command\":\"ls\"}"),
        _ => panic!("auto-approved bash runs"),
    }
    let args = ToolArgs { fields: vec![ArgField { key: "q".to_string(), value: None }], rendered: "{\"q\":1}".to_string() };
    assert_eq!(describe_call("read_file", &args), "read_file ?");
}

#[test]
fn permission_answers() {
    assert!(matches!(permission_answer("y"), Permission::Allow));
    assert!(matches!(permission_answer("Yes\n"), Permission::Allow));
    assert!(matches!(permission_answer("A"), Permission::AllowAll));
    assert!(matches!(permission_answer(""), Permission::Deny));
    assert!(matches!(permission_answer("yess"), Permission::Deny));
}

#[test]
fn commands_are_handled_locally() {
    let mut a = Agent::new(false);
    a.begin_turn("hi");
    a.record_reply(reply(Some("hello"), vec![], 9));
    let r = handle_command("/tokens", &mut a);
    assert!(!r.quit);
    assert_eq!(r.message.as_deref(), Some("session tokens: 9"));
    let r = handle_command("/clear", &mut a);
    assert_eq!(r.message.as_deref(), Some("(conversation cleared)"));
    assert_eq!(a.messages().len(), 1);
    // Clearing keeps the session's token count.
    assert_eq!(a.session_tokens(), 9);
    assert!(handle_command("/quit", &mut a).quit);
    assert!(handle_command("/exit", &mut a).quit);
    assert!(handle_command("/help", &mut a).message.unwrap().contains("/tokens"));
    assert_eq!(handle_command("/nope", &mut a).message.as_deref(), Some("unknown command: /nope (try /help)"));
}

#[test]
fn plan_uses_the_given_parse_result() {
    let a = Agent::new(false);
    let c = call("c", "edit_file", "ignored");
    match a.plan_with_args(&c, Err("expected value".to_string())) {
        CallPlan::Reply(t) => assert_eq!(
            t,
            "Error: could not parse arguments for edit_file: expected value. Raw: ignored"
        ),
        _ => panic!("a parse error is answered"),
    }
    let args = ToolArgs {
        fields: vec![ArgField { key: "path".to_string(), value: Some("f.rs".to_string()) }],
        rendered: "{\"path\":\"f.rs\"}".to_string(),
    };
    match a.plan_with_args(&c, Ok(args)) {
        CallPlan::Confirm { description, args } => {
            assert_eq!(description, "edit_file f.rs");
            assert_eq!(args.rendered, "{\"path\":\"f.rs\"}");
        }
        _ => panic!("edit_file asks first"),
    }
}

#[test]
fn lowered_answers_are_classified() {
    assert!(matches!(classify_answer("y"), Permission::Allow));
    assert!(matches!(classify_answer("yes"), Permission::Allow));
    assert!(matches!(classify_answer("a"), Permission::AllowAll));
    assert!(matches!(classify_answer("Y"), Permission::Deny));
    assert!(matches!(classify_answer(" y"), Permission::Deny));
    assert!(matches!(classify_answer("no"), Permission::Deny));
}

#[test]
fn only_clearing_resets_the_step_count() {
    let mut a = Agent::new(true);
    a.begin_turn("loop");
    for _ in 0..MAX_STEPS {
        a.record_reply(reply(None, vec![call("c", "search", "{}")], 0));
    }
    assert!(matches!(a.after_tools(), TurnAction::StepLimit));
    handle_command("/tokens", &mut a);
    handle_command("/help", &mut a);
    assert!(matches!(a.after_tools(), TurnAction::StepLimit));
    handle_command("/reset", &mut a);
    assert!(matches!(a.after_tools(), TurnAction::RequestChat));
}
