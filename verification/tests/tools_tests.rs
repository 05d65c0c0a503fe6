use flashcode::tools::{
    apply_edit, command_report, definitions, edit_report, listing_report, needs_permission,
    plan_tool, preview, read_report, scan_file, search_report, skip_entry, tool_reply,
    truncate_output, write_report, next_walk_step, WalkStep, ArgField, CommandOutcome, EntryInfo, ToolArgs, ToolRequest,
    MAX_OUTPUT_BYTES, SEARCH_MAX_HITS,
};

fn args(pairs: &[(&str, &str)]) -> ToolArgs {
    ToolArgs {
        fields: pairs
            .iter()
            .map(|(k, v)| ArgField { key: k.to_string(), value: Some(v.to_string()) })
            .collect(),
        rendered: String::new(),
    }
}

#[test]
fn truncate_leaves_short_output_untouched() {
    let s = "hello".to_string();
    assert_eq!(truncate_output(s.clone()), s);
}

#[test]
fn truncate_caps_long_output() {
    let s = "x".repeat(MAX_OUTPUT_BYTES + 100);
    let out = truncate_output(s);
    assert!(out.len() < MAX_OUTPUT_BYTES + 100);
    assert!(out.contains("truncated"));
}

#[test]
fn needs_permission_matches_mutating_tools() {
    assert!(needs_permission("write_file"));
    assert!(needs_permission("edit_file"));
    assert!(needs_permission("bash"));
    assert!(!needs_permission("read_file"));
    assert!(!needs_permission("search"));
    assert!(!needs_permission("list_files"));
}

#[test]
fn edit_preview_shows_diff_markers() {
    let a = args(&[("path", "f.txt"), ("old_string", "foo"), ("new_string", "bar")]);
    let preview = preview("edit_file", &a, false).unwrap();
    assert!(preview.contains("- foo"));
    assert!(preview.contains("+ bar"));
}

#[test]
fn bash_preview_shows_command() {
    let a = args(&[("command", "ls -la")]);
    let preview = preview("bash", &a, false).unwrap();
    assert!(preview.contains("ls -la"));
}

#[test]
fn truncate_exactly_at_cap_is_untouched() {
    let s = "y".repeat(MAX_OUTPUT_BYTES);
    assert_eq!(truncate_output(s.clone()), s);
}

#[test]
fn truncate_cuts_at_char_boundary() {
    // 2-byte characters: 15000 of them fill the cap exactly, the next one does not fit.
    let s = "é".repeat(MAX_OUTPUT_BYTES / 2 + 1);
    let out = truncate_output(s);
    let expected = format!("{}\n... (output truncated at 30000 bytes)", "é".repeat(MAX_OUTPUT_BYTES / 2));
    assert_eq!(out, expected);
    // 3-byte characters: 10000 fill the cap exactly.
    let s = "€".repeat(10001);
    let out = truncate_output(s);
    assert!(out.starts_with(&"€".repeat(10000)));
    assert!(!out.starts_with(&"€".repeat(10001)));
}

#[test]
fn tool_reply_formats_errors() {
    assert_eq!(tool_reply(Err("boom".to_string())), "Error: boom");
    assert_eq!(tool_reply(Ok("fine".to_string())), "fine");
}

#[test]
fn definitions_list_six_tools() {
    let defs = definitions();
    let names: Vec<&str> = defs.iter().map(|d| d.function.name.as_str()).collect();
    assert_eq!(names, vec!["read_file", "write_file", "edit_file", "list_files", "search", "bash"]);
    assert!(defs.iter().all(|d| d.kind == "function"));
    let list = &defs[3].function;
    assert_eq!(list.parameters.len(), 1);
    assert!(!list.parameters[0].required);
    let edit = &defs[2].function;
    let params: Vec<&str> = edit.parameters.iter().map(|p| p.name.as_str()).collect();
    assert_eq!(params, vec!["path", "old_string", "new_string"]);
    assert!(edit.parameters.iter().all(|p| p.required));
}

#[test]
fn plan_reads_arguments() {
    match plan_tool("read_file", &args(&[("path", "a.txt")])) {
        Ok(ToolRequest::ReadFile { path }) => assert_eq!(path, "a.txt"),
        _ => panic!("expected a read request"),
    }
    match plan_tool("list_files", &args(&[])) {
        Ok(ToolRequest::ListFiles { path }) => assert_eq!(path, "."),
        _ => panic!("expected a listing request"),
    }
    match plan_tool("search", &args(&[("query", "fn")])) {
        Ok(ToolRequest::Search { query, path }) => {
            assert_eq!(query, "fn");
            assert_eq!(path, ".");
        }
        _ => panic!("expected a search request"),
    }
    match plan_tool("edit_file", &args(&[("path", "a"), ("old_string", "x"), ("new_string", "y")])) {
        Ok(ToolRequest::EditFile { path, old, new }) => {
            assert_eq!((path.as_str(), old.as_str(), new.as_str()), ("a", "x", "y"));
        }
        _ => panic!("expected an edit request"),
    }
}

#[test]
fn plan_reports_missing_and_unknown() {
    let e = plan_tool("write_file", &args(&[("path", "a.txt")])).err().unwrap();
    assert_eq!(e, "missing or non-string argument `content`");
    let e = plan_tool("bash", &args(&[])).err().unwrap();
    assert_eq!(e, "missing or non-string argument `command`");
    let non_string = ToolArgs {
        fields: vec![ArgField { key: "path".to_string(), value: None }],
        rendered: "{\"path\":3}".to_string(),
    };
    let e = plan_tool("read_file", &non_string).err().unwrap();
    assert_eq!(e, "missing or non-string argument `path`");
    let e = plan_tool("frobnicate", &args(&[])).err().unwrap();
    assert_eq!(e, "unknown tool: frobnicate");
}

#[test]
fn read_report_numbers_lines() {
    assert_eq!(read_report("a.txt", ""), "(file a.txt is empty)");
    assert_eq!(read_report("a.txt", "one\ntwo\n"), "     1\tone\n     2\ttwo");
    assert_eq!(read_report("a.txt", "x\r\ny"), "     1\tx\n     2\ty");
    assert_eq!(read_report("a.txt", "\n"), "     1\t");
}

#[test]
fn read_report_wide_line_numbers() {
    let text = "l\n".repeat(1_000_001);
    let out = read_report("big", &text);
    assert!(out.ends_with("1000001\tl"));
    assert!(out.contains("\n     9\tl\n    10\tl\n"));
}

#[test]
fn write_report_counts_bytes() {
    assert_eq!(write_report("f.txt", "héllo"), "Wrote 6 bytes to f.txt");
    assert_eq!(write_report("f.txt", ""), "Wrote 0 bytes to f.txt");
}

#[test]
fn edit_replaces_unique_occurrence() {
    assert_eq!(apply_edit("f", "a foo b", "foo", "bar"), Ok("a bar b".to_string()));
    assert_eq!(edit_report("f"), "Edited f");
}

#[test]
fn edit_rejects_missing_and_repeated() {
    assert_eq!(
        apply_edit("f", "abc", "zz", "y"),
        Err("`old_string` not found in f".to_string())
    );
    assert_eq!(
        apply_edit("f", "ab ab ab", "ab", "y"),
        Err("`old_string` appears 3 times in f; it must be unique. Add surrounding context to disambiguate."
            .to_string())
    );
}

#[test]
fn edit_counts_non_overlapping_matches() {
    // "aa" occurs once without overlap in "aaa": the leftmost one is replaced.
    assert_eq!(apply_edit("f", "aaa", "aa", "b"), Ok("ba".to_string()));
    // The empty pattern matches at every character boundary.
    assert_eq!(
        apply_edit("f", "ab", "", "x"),
        Err("`old_string` appears 3 times in f; it must be unique. Add surrounding context to disambiguate."
            .to_string())
    );
    assert_eq!(apply_edit("f", "", "", "new"), Ok("new".to_string()));
}

#[test]
fn listing_sorts_and_marks_directories() {
    let entries = vec![
        EntryInfo { name: "zeta.txt".to_string(), is_dir: false },
        EntryInfo { name: "src".to_string(), is_dir: true },
        EntryInfo { name: "Cargo.toml".to_string(), is_dir: false },
        EntryInfo { name: "alpha".to_string(), is_dir: false },
    ];
    assert_eq!(listing_report(".", &entries), "Cargo.toml\nalpha\nsrc/\nzeta.txt");
    assert_eq!(listing_report("empty", &vec![]), "(directory empty is empty)");
}

#[test]
fn listing_sorts_by_code_point() {
    let entries = vec![
        EntryInfo { name: "é".to_string(), is_dir: false },
        EntryInfo { name: "z".to_string(), is_dir: false },
        EntryInfo { name: "a".to_string(), is_dir: true },
        EntryInfo { name: "a-b".to_string(), is_dir: false },
    ];
    assert_eq!(listing_report(".", &entries), "a-b\na/\nz\né");
}

#[test]
fn search_skips_hidden_and_build_dirs() {
    assert!(skip_entry(".git"));
    assert!(skip_entry(".env"));
    assert!(skip_entry("target"));
    assert!(skip_entry("node_modules"));
    assert!(!skip_entry("src"));
    assert!(!skip_entry("targets"));
}

#[test]
fn search_collects_hits() {
    let mut hits = Vec::new();
    let stopped = scan_file("src/a.rs", "fn main() {}  \nlet x = 1;\nfn helper()\n", "fn", &mut hits);
    assert!(!stopped);
    assert_eq!(hits, vec!["src/a.rs:1:fn main() {}".to_string(), "src/a.rs:3:fn helper()".to_string()]);
    assert_eq!(search_report("fn", &hits), "src/a.rs:1:fn main() {}\nsrc/a.rs:3:fn helper()");
    assert_eq!(search_report("nothing", &vec![]), "No matches for `nothing`.");
}

#[test]
fn search_stops_at_cap() {
    let mut hits = vec!["earlier".to_string(); SEARCH_MAX_HITS - 2];
    let text = "hit\n".repeat(5);
    let stopped = scan_file("f", &text, "hit", &mut hits);
    assert!(stopped);
    assert_eq!(hits.len(), SEARCH_MAX_HITS + 1);
    assert_eq!(hits[SEARCH_MAX_HITS - 2], "f:1:hit");
    assert_eq!(hits[SEARCH_MAX_HITS - 1], "f:2:hit");
    assert_eq!(hits[SEARCH_MAX_HITS], "... (stopped at 200 matches)");
}

#[test]
fn command_report_combines_streams() {
    assert_eq!(
        command_report("hello", "", CommandOutcome::Exited { code: Some(0) }),
        "hello\n[exit code: 0]"
    );
    assert_eq!(
        command_report("", "", CommandOutcome::Exited { code: Some(3) }),
        "(no output)\n[exit code: 3]"
    );
    assert_eq!(
        command_report("out", "oops", CommandOutcome::Exited { code: None }),
        "out\noops\n[exit code: -1]"
    );
    assert_eq!(
        command_report("out\n", "oops", CommandOutcome::Exited { code: Some(-2) }),
        "out\noops\n[exit code: -2]"
    );
    assert_eq!(
        command_report("", "oops", CommandOutcome::Exited { code: Some(1) }),
        "oops\n[exit code: 1]"
    );
    assert_eq!(
        command_report("", "", CommandOutcome::TimedOut { seconds: 120 }),
        "(no output)\n[timed out after 120s and was killed]"
    );
}

#[test]
fn write_preview_tells_create_from_overwrite() {
    let a = args(&[("path", "n.txt"), ("content", "héllo")]);
    assert_eq!(preview("write_file", &a, false).unwrap(), "create n.txt (6 bytes)");
    assert_eq!(preview("write_file", &a, true).unwrap(), "overwrite n.txt (6 bytes)");
    let a = args(&[("path", "n.txt")]);
    assert_eq!(preview("write_file", &a, false).unwrap(), "create n.txt (0 bytes)");
    assert_eq!(preview("read_file", &a, false), None);
    assert_eq!(preview("edit_file", &a, false), None);
}

#[test]
fn edit_preview_lists_each_line() {
    let a = args(&[("path", "f.txt"), ("old_string", "a\nb"), ("new_string", "c")]);
    assert_eq!(preview("edit_file", &a, false).unwrap(), "edit f.txt:\n  - a\n  - b\n  + c\n");
}

#[test]
fn reverse_edit_restores_text() {
    let text = "fn main() {\n    old_call();\n}\n";
    let edited = apply_edit("m.rs", text, "old_call", "new_call").unwrap();
    assert_eq!(edited, "fn main() {\n    new_call();\n}\n");
    assert_eq!(apply_edit("m.rs", &edited, "new_call", "old_call").unwrap(), text);
}

#[test]
fn listing_does_not_depend_on_read_order() {
    let a = vec![
        EntryInfo { name: "b".to_string(), is_dir: false },
        EntryInfo { name: "a".to_string(), is_dir: true },
        EntryInfo { name: "c".to_string(), is_dir: false },
    ];
    let b = vec![
        EntryInfo { name: "c".to_string(), is_dir: false },
        EntryInfo { name: "b".to_string(), is_dir: false },
        EntryInfo { name: "a".to_string(), is_dir: true },
    ];
    assert_eq!(listing_report(".", &a), listing_report(".", &b));
    assert_eq!(listing_report(".", &a), "a/\nb\nc");
}

#[test]
fn walk_stops_at_cap_before_anything_else() {
    assert!(matches!(next_walk_step(SEARCH_MAX_HITS, "src"), WalkStep::Stop));
    assert!(matches!(next_walk_step(SEARCH_MAX_HITS + 1, ".git"), WalkStep::Stop));
    assert!(matches!(next_walk_step(0, ".git"), WalkStep::Skip));
    assert!(matches!(next_walk_step(5, "node_modules"), WalkStep::Skip));
    assert!(matches!(next_walk_step(SEARCH_MAX_HITS - 1, "src"), WalkStep::Visit));
}
