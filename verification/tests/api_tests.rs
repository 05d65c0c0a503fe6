use flashcode::api::{
    apply_tool_deltas, classify_line, completions_url, default_tool_type, finish, Delta,
    FunctionDelta, Message, SseLine, StreamAssembler, StreamChoice, StreamChunk, ToolCallBuilder,
    ToolCallDelta, Usage,
};

fn delta(index: usize, id: Option<&str>, name: Option<&str>, args: Option<&str>) -> ToolCallDelta {
    ToolCallDelta {
        index,
        id: id.map(String::from),
        function: Some(FunctionDelta { name: name.map(String::from), arguments: args.map(String::from) }),
    }
}

fn text_chunk(t: &str) -> StreamChunk {
    StreamChunk {
        choices: vec![StreamChoice { delta: Delta { content: Some(t.to_string()), tool_calls: None } }],
        usage: None,
    }
}

#[test]
fn message_constructors() {
    let m = Message::system("be brief");
    assert_eq!(m.role, "system");
    assert_eq!(m.content.as_deref(), Some("be brief"));
    assert!(m.tool_calls.is_none() && m.tool_call_id.is_none());
    let m = Message::user("hi");
    assert_eq!(m.role, "user");
    let m = Message::tool("call_1", "done");
    assert_eq!(m.role, "tool");
    assert_eq!(m.tool_call_id.as_deref(), Some("call_1"));
    assert_eq!(m.content.as_deref(), Some("done"));
    assert_eq!(default_tool_type(), "function");
}

#[test]
fn tool_deltas_are_reassembled_by_index() {
    let mut builders: Vec<ToolCallBuilder> = Vec::new();
    apply_tool_deltas(&mut builders, vec![delta(0, Some("c0"), Some("read_file"), Some("{\"pa"))]);
    apply_tool_deltas(&mut builders, vec![delta(0, None, None, Some("th\":\"a\"}")), delta(2, Some("c2"), Some("bash"), None)]);
    assert_eq!(builders.len(), 3);
    assert_eq!(builders[0].arguments, "{\"path\":\"a\"}");
    assert_eq!(builders[1].name, "");
    let r = finish(String::new(), builders, None);
    assert_eq!(r.message.role, "assistant");
    assert!(r.message.content.is_none());
    let calls = r.message.tool_calls.unwrap();
    // The empty builder at index 1 has no name and is dropped.
    assert_eq!(calls.len(), 2);
    assert_eq!(calls[0].id, "c0");
    assert_eq!(calls[0].kind, "function");
    assert_eq!(calls[0].function.name, "read_file");
    assert_eq!(calls[1].function.name, "bash");
    assert_eq!(calls[1].function.arguments, "");
}

#[test]
fn finish_keeps_text_and_usage() {
    let usage = Usage { prompt_tokens: 3, completion_tokens: 4, total_tokens: 7 };
    let r = finish("hello".to_string(), Vec::new(), Some(usage));
    assert_eq!(r.message.content.as_deref(), Some("hello"));
    assert!(r.message.tool_calls.is_none());
    assert_eq!(r.usage.unwrap().total_tokens, 7);
}

#[test]
fn sse_lines_are_classified() {
    assert!(matches!(classify_line("data: [DONE]"), SseLine::Done));
    assert!(matches!(classify_line("data:   "), SseLine::Skip));
    assert!(matches!(classify_line(": keepalive"), SseLine::Skip));
    match classify_line("data: {\"x\":1}  ") {
        SseLine::Data(d) => assert_eq!(d, "{\"x\":1}"),
        _ => panic!("expected data"),
    }
}

#[test]
fn stream_lines_survive_chunk_splits() {
    let mut a = StreamAssembler::new();
    a.push_bytes(b"data: {\"a\"");
    assert!(a.next_line().is_none());
    a.push_bytes(b":1}\r\n\ndata: [DO");
    assert_eq!(a.next_line().as_deref(), Some("data: {\"a\":1}"));
    assert_eq!(a.next_line().as_deref(), Some(""));
    assert!(a.next_line().is_none());
    a.push_bytes(b"NE]\n");
    assert_eq!(a.next_line().as_deref(), Some("data: [DONE]"));
}

#[test]
fn stream_decodes_invalid_utf8_lossily() {
    let mut a = StreamAssembler::new();
    a.push_bytes(&[b'a', 0xff, b'b', b'\n']);
    assert_eq!(a.next_line().as_deref(), Some("a\u{fffd}b"));
    a.push_bytes("é\n".as_bytes());
    assert_eq!(a.next_line().as_deref(), Some("é"));
}

#[test]
fn stream_accumulates_text_calls_and_usage() {
    let mut a = StreamAssembler::new();
    assert_eq!(a.apply_chunk(text_chunk("Hel")), vec!["Hel".to_string()]);
    assert!(a.apply_chunk(text_chunk("")).is_empty());
    assert_eq!(a.apply_chunk(text_chunk("lo")), vec!["lo".to_string()]);
    let chunk = StreamChunk {
        choices: vec![StreamChoice {
            delta: Delta { content: None, tool_calls: Some(vec![delta(0, Some("id"), Some("search"), Some("{}"))]) },
        }],
        usage: Some(Usage { prompt_tokens: 1, completion_tokens: 2, total_tokens: 3 }),
    };
    assert!(a.apply_chunk(chunk).is_empty());
    let r = a.into_result();
    assert_eq!(r.message.content.as_deref(), Some("Hello"));
    assert_eq!(r.message.tool_calls.as_ref().unwrap()[0].function.name, "search");
    assert_eq!(r.usage.unwrap().total_tokens, 3);
}

#[test]
fn completions_url_appends_path() {
    assert_eq!(completions_url("https://api.deepseek.com"), "https://api.deepseek.com/chat/completions");
}

#[test]
fn pushed_text_is_split_into_lines() {
    let mut a = StreamAssembler::new();
    a.push_text("  one  \ntwo");
    assert_eq!(a.next_line().as_deref(), Some("one"));
    assert!(a.next_line().is_none());
    a.push_text("\n");
    assert_eq!(a.next_line().as_deref(), Some("two"));
    assert!(a.next_line().is_none());
}

#[test]
fn interleaved_fragments_concatenate_per_call() {
    let mut builders: Vec<ToolCallBuilder> = Vec::new();
    apply_tool_deltas(
        &mut builders,
        vec![
            delta(1, Some("b"), Some("search"), Some("{\"q")),
            delta(0, Some("a"), Some("bash"), Some("{\"c")),
            delta(1, None, None, Some("uery\":\"x\"}")),
            delta(0, None, None, Some("ommand\":\"ls\"}")),
        ],
    );
    assert_eq!(builders.len(), 2);
    assert_eq!(builders[0].arguments, "{\"command\":\"ls\"}");
    assert_eq!(builders[1].arguments, "{\"query\":\"x\"}");
    assert_eq!(builders[0].id, "a");
    assert_eq!(builders[1].name, "search");
}

#[test]
fn later_id_and_name_replace_earlier_ones() {
    let mut builders: Vec<ToolCallBuilder> = Vec::new();
    apply_tool_deltas(
        &mut builders,
        vec![
            delta(0, Some("first"), Some("read_file"), None),
            delta(1, Some("other"), None, None),
            delta(0, None, None, None),
            delta(0, Some("second"), Some("search"), None),
            delta(0, None, None, Some("{}")),
        ],
    );
    assert_eq!(builders[0].id, "second");
    assert_eq!(builders[0].name, "search");
    assert_eq!(builders[1].id, "other");
    assert_eq!(builders[1].name, "");
}

#[test]
fn whole_stream_gives_concatenated_reply() {
    let mut a = StreamAssembler::new();
    let chunks = vec![
        text_chunk("Let me "),
        StreamChunk {
            choices: vec![
                StreamChoice { delta: Delta { content: Some("look.".to_string()), tool_calls: None } },
                StreamChoice {
                    delta: Delta {
                        content: None,
                        tool_calls: Some(vec![delta(0, Some("c1"), Some("read_file"), Some("{\"path\":"))]),
                    },
                },
            ],
            usage: Some(Usage { prompt_tokens: 1, completion_tokens: 1, total_tokens: 2 }),
        },
        StreamChunk {
            choices: vec![StreamChoice {
                delta: Delta { content: None, tool_calls: Some(vec![delta(0, None, None, Some("\"a\"}"))]) },
            }],
            usage: None,
        },
        StreamChunk { choices: vec![], usage: Some(Usage { prompt_tokens: 5, completion_tokens: 6, total_tokens: 11 }) },
    ];
    for c in chunks {
        a.apply_chunk(c);
    }
    let r = a.into_result();
    assert_eq!(r.message.role, "assistant");
    assert_eq!(r.message.content.as_deref(), Some("Let me look."));
    let calls = r.message.tool_calls.unwrap();
    assert_eq!(calls.len(), 1);
    assert_eq!(calls[0].id, "c1");
    assert_eq!(calls[0].function.arguments, "{\"path\":\"a\"}");
    assert_eq!(r.usage.unwrap().total_tokens, 11);
}
