//! The tools offered to the model: their definitions, the reading of a call's
//! arguments, the permission classifier, and everything the handlers compute
//! around their file and process access (reports, edits, listings, search
//! hits, command output, previews, truncation).

use vstd::prelude::*;

use crate::text::{
    char_width, chars_of, concat, contains_chars, contains_text, count_matches, count_occurrences,
    decimal, find_text, join, join_strings, lemma_utf8_len_take, lines, lines_of, occurs_at,
    pad_left, push_chars, push_decimal, push_padded, push_signed, push_str, same_text,
    signed_decimal, slice_chars, string_from, string_of, trim_end, trim_end_chars, utf8_len, views,
    width_of,
};

verus! {

// ---------------------------------------------------------------------------
// Tool definitions
// ---------------------------------------------------------------------------

/// One string parameter of a tool.
pub struct ParamSpec {
    pub name: String,
    pub description: String,
    pub required: bool,
}

/// A function the model may call: its name, what it does, and its string
/// parameters (the JSON schema is an object of these).
pub struct FunctionDef {
    pub name: String,
    pub description: String,
    pub parameters: Vec<ParamSpec>,
}

/// A tool definition advertised to the model; `kind` is `"function"`.
pub struct ToolDef {
    pub kind: String,
    pub function: FunctionDef,
}

pub struct ParamView {
    pub name: Seq<char>,
    pub description: Seq<char>,
    pub required: bool,
}

pub struct ToolDefView {
    pub kind: Seq<char>,
    pub name: Seq<char>,
    pub description: Seq<char>,
    pub parameters: Seq<ParamView>,
}

impl View for ParamSpec {
    type V = ParamView;

    open spec fn view(&self) -> ParamView {
        ParamView { name: self.name@, description: self.description@, required: self.required }
    }
}

impl View for ToolDef {
    type V = ToolDefView;

    open spec fn view(&self) -> ToolDefView {
        ToolDefView {
            kind: self.kind@,
            name: self.function.name@,
            description: self.function.description@,
            parameters: self.function.parameters@.map_values(|p: ParamSpec| p@),
        }
    }
}

pub open spec fn tool_views(ds: Seq<ToolDef>) -> Seq<ToolDefView> {
    ds.map_values(|d: ToolDef| d@)
}

pub open spec fn param(name: Seq<char>, description: Seq<char>, required: bool) -> ParamView {
    ParamView { name, description, required }
}

pub open spec fn tool(name: Seq<char>, description: Seq<char>, parameters: Seq<ParamView>) -> ToolDefView {
    ToolDefView { kind: "function"@, name, description, parameters }
}

/// The six tools, in the order they are advertised.
pub open spec fn catalog() -> Seq<ToolDefView> {
    seq![
        tool(
            "read_file"@,
            "Read the contents of a file. Returns the full text with 1-based line numbers prefixed."@,
            seq![param("path"@, "Path to the file to read."@, true)],
        ),
        tool(
            "write_file"@,
            "Write content to a file, creating it (and parent directories) or overwriting it entirely. Use edit_file for targeted changes to an existing file."@,
            seq![
                param("path"@, "Path to the file to write."@, true),
                param("content"@, "The full new file content."@, true),
            ],
        ),
        tool(
            "edit_file"@,
            "Replace an exact substring in a file with new text. `old_string` must appear exactly once in the file, or the edit is rejected."@,
            seq![
                param("path"@, "Path to the file to edit."@, true),
                param("old_string"@, "Exact text to replace (must be unique)."@, true),
                param("new_string"@, "Text to replace it with."@, true),
            ],
        ),
        tool(
            "list_files"@,
            "List files and directories under a path (defaults to the current directory). Not recursive; directories are suffixed with '/'."@,
            seq![param("path"@, "Directory to list. Defaults to '.'."@, false)],
        ),
        tool(
            "search"@,
            "Search file contents for a substring (case-sensitive) across the working tree. Returns matching lines as path:line:text. Skips hidden dirs, target/, and .git/."@,
            seq![
                param("query"@, "Substring to search for."@, true),
                param("path"@, "Directory to search under. Defaults to '.'."@, false),
            ],
        ),
        tool(
            "bash"@,
            "Run a shell command in the working directory and return its combined stdout/stderr and exit code. Use for building, running tests, git, etc."@,
            seq![param("command"@, "The shell command to run."@, true)],
        ),
    ]
}

fn param_spec(name: &str, description: &str, required: bool) -> (p: ParamSpec)
    ensures
        p@ == param(name@, description@, required),
{
    ParamSpec { name: string_from(name), description: string_from(description), required }
}

fn func(name: &str, description: &str, parameters: Vec<ParamSpec>) -> (d: ToolDef)
    ensures
        d@ == tool(name@, description@, parameters@.map_values(|p: ParamSpec| p@)),
{
    ToolDef {
        kind: string_from("function"),
        function: FunctionDef {
            name: string_from(name),
            description: string_from(description),
            parameters,
        },
    }
}

/// The list of tools advertised to the model.
pub fn definitions() -> (defs: Vec<ToolDef>)
    ensures
        tool_views(defs@) == catalog(),
{
    let mut defs: Vec<ToolDef> = Vec::new();
    let ps = vec![param_spec("path", "Path to the file to read.", true)];
    assert(ps@.map_values(|p: ParamSpec| p@) =~= catalog()[0].parameters);
    defs.push(
        func(
            "read_file",
            "Read the contents of a file. Returns the full text with 1-based line numbers prefixed.",
            ps,
        ),
    );
    let ps = vec![
        param_spec("path", "Path to the file to write.", true),
        param_spec("content", "The full new file content.", true),
    ];
    assert(ps@.map_values(|p: ParamSpec| p@) =~= catalog()[1].parameters);
    defs.push(
        func(
            "write_file",
            "Write content to a file, creating it (and parent directories) or overwriting it entirely. Use edit_file for targeted changes to an existing file.",
            ps,
        ),
    );
    let ps = vec![
        param_spec("path", "Path to the file to edit.", true),
        param_spec("old_string", "Exact text to replace (must be unique).", true),
        param_spec("new_string", "Text to replace it with.", true),
    ];
    assert(ps@.map_values(|p: ParamSpec| p@) =~= catalog()[2].parameters);
    defs.push(
        func(
            "edit_file",
            "Replace an exact substring in a file with new text. `old_string` must appear exactly once in the file, or the edit is rejected.",
            ps,
        ),
    );
    let ps = vec![param_spec("path", "Directory to list. Defaults to '.'.", false)];
    assert(ps@.map_values(|p: ParamSpec| p@) =~= catalog()[3].parameters);
    defs.push(
        func(
            "list_files",
            "List files and directories under a path (defaults to the current directory). Not recursive; directories are suffixed with '/'.",
            ps,
        ),
    );
    let ps = vec![
        param_spec("query", "Substring to search for.", true),
        param_spec("path", "Directory to search under. Defaults to '.'.", false),
    ];
    assert(ps@.map_values(|p: ParamSpec| p@) =~= catalog()[4].parameters);
    defs.push(
        func(
            "search",
            "Search file contents for a substring (case-sensitive) across the working tree. Returns matching lines as path:line:text. Skips hidden dirs, target/, and .git/.",
            ps,
        ),
    );
    let ps = vec![param_spec("command", "The shell command to run.", true)];
    assert(ps@.map_values(|p: ParamSpec| p@) =~= catalog()[5].parameters);
    defs.push(
        func(
            "bash",
            "Run a shell command in the working directory and return its combined stdout/stderr and exit code. Use for building, running tests, git, etc.",
            ps,
        ),
    );
    assert(tool_views(defs@) =~= catalog());
    defs
}

// ---------------------------------------------------------------------------
// Permission classifier
// ---------------------------------------------------------------------------

/// The tools that change files or run commands.
pub open spec fn is_mutating(name: Seq<char>) -> bool {
    name == "write_file"@ || name == "edit_file"@ || name == "bash"@
}

/// Whether a tool requires user confirmation before running.
pub fn needs_permission(name: &str) -> (r: bool)
    ensures
        r == is_mutating(name@),
{
    same_text(name, "write_file") || same_text(name, "edit_file") || same_text(name, "bash")
}

// ---------------------------------------------------------------------------
// Arguments of a call
// ---------------------------------------------------------------------------

/// A top-level member of the arguments object: its key, and its text when
/// the value is a JSON string.
pub struct ArgField {
    pub key: String,
    pub value: Option<String>,
}

/// The parsed arguments of a tool call: the members of the arguments object
/// (none when the JSON value is not an object) and the value's compact JSON
/// text.
pub struct ToolArgs {
    pub fields: Vec<ArgField>,
    pub rendered: String,
}

pub struct FieldView {
    pub key: Seq<char>,
    pub value: Option<Seq<char>>,
}

pub struct ToolArgsView {
    pub fields: Seq<FieldView>,
    pub rendered: Seq<char>,
}

impl View for ArgField {
    type V = FieldView;

    open spec fn view(&self) -> FieldView {
        FieldView { key: self.key@, value: self.value.deep_view() }
    }
}

impl View for ToolArgs {
    type V = ToolArgsView;

    open spec fn view(&self) -> ToolArgsView {
        ToolArgsView {
            fields: self.fields@.map_values(|f: ArgField| f@),
            rendered: self.rendered@,
        }
    }
}

/// `args.get(key).and_then(Value::as_str)`: the text of the member `key` when
/// it is present and a string.
pub open spec fn lookup(fields: Seq<FieldView>, key: Seq<char>) -> Option<Seq<char>>
    decreases fields.len(),
{
    if fields.len() == 0 {
        None
    } else if fields[0].key == key {
        fields[0].value
    } else {
        lookup(fields.drop_first(), key)
    }
}

impl ToolArgs {
    /// The string member `key`, if present.
    pub fn get_str(&self, key: &str) -> (r: Option<String>)
        ensures
            r.deep_view() == lookup(self@.fields, key@),
    {
        let mut i: usize = 0;
        let ghost fs = self@.fields;
        assert(fs.skip(0) =~= fs);
        while i < self.fields.len()
            invariant
                fs == self@.fields,
                i <= self.fields.len(),
                lookup(fs, key@) == lookup(fs.skip(i as int), key@),
            decreases self.fields.len() - i,
        {
            let f = &self.fields[i];
            assert(fs.skip(i as int)[0] == f@);
            assert(fs.skip(i as int).drop_first() =~= fs.skip(i + 1));
            if same_text(f.key.as_str(), key) {
                return match &f.value {
                    Some(v) => Some(v.clone()),
                    None => None,
                };
            }
            i += 1;
        }
        None
    }
}

// Name for what the arguments text parses to: `serde_json::from_str` into a
// `serde_json::Value`, read off as members and compact text, or the parse
// error's message.
pub uninterp spec fn json_tool_args(text: Seq<char>) -> Result<ToolArgsView, Seq<char>>;

pub open spec fn args_result_view(r: Result<ToolArgs, String>) -> Result<ToolArgsView, Seq<char>> {
    match r {
        Ok(a) => Ok(a@),
        Err(e) => Err(e@),
    }
}

/// Parses a call's JSON arguments with `serde_json::from_str` into a
/// `serde_json::Value`: on success, the members of the object (each key with
/// its text when the value is a string; none when the value is not an
/// object) and the value's compact JSON (`Display`); on failure, the error's
/// message (`Display`). The result is named, not described.
#[verifier::external_body]
pub(crate) fn parse_tool_args(text: &str) -> (r: Result<ToolArgs, String>)
    ensures
        args_result_view(r) == json_tool_args(text@),
{
    match serde_json::from_str::<serde_json::Value>(text) {
        Ok(v) => Ok(ToolArgs {
            fields: match v.as_object() {
                Some(m) => m.iter().map(|(k, x)| ArgField { key: k.clone(), value: x.as_str().map(String::from) }).collect(),
                None => Vec::new(),
            },
            rendered: v.to_string(),
        }),
        Err(e) => Err(e.to_string()),
    }
}

// ---------------------------------------------------------------------------
// Dispatch
// ---------------------------------------------------------------------------

/// What a tool call asks for, with its arguments read.
pub enum ToolRequest {
    ReadFile { path: String },
    WriteFile { path: String, content: String },
    EditFile { path: String, old: String, new: String },
    ListFiles { path: String },
    Search { query: String, path: String },
    Bash { command: String },
}

pub enum RequestView {
    ReadFile { path: Seq<char> },
    WriteFile { path: Seq<char>, content: Seq<char> },
    EditFile { path: Seq<char>, old: Seq<char>, new: Seq<char> },
    ListFiles { path: Seq<char> },
    Search { query: Seq<char>, path: Seq<char> },
    Bash { command: Seq<char> },
}

impl View for ToolRequest {
    type V = RequestView;

    open spec fn view(&self) -> RequestView {
        match self {
            ToolRequest::ReadFile { path } => RequestView::ReadFile { path: path@ },
            ToolRequest::WriteFile { path, content } => RequestView::WriteFile {
                path: path@,
                content: content@,
            },
            ToolRequest::EditFile { path, old, new } => RequestView::EditFile {
                path: path@,
                old: old@,
                new: new@,
            },
            ToolRequest::ListFiles { path } => RequestView::ListFiles { path: path@ },
            ToolRequest::Search { query, path } => RequestView::Search {
                query: query@,
                path: path@,
            },
            ToolRequest::Bash { command } => RequestView::Bash { command: command@ },
        }
    }
}

pub open spec fn missing_arg(key: Seq<char>) -> Seq<char> {
    "missing or non-string argument `"@ + key + "`"@
}

pub open spec fn unknown_tool(name: Seq<char>) -> Seq<char> {
    "unknown tool: "@ + name
}

/// The request a call makes: each required argument must be a string member
/// (the first one missing is reported), optional paths default to `.`, and
/// unknown tools are rejected.
pub open spec fn request_of(name: Seq<char>, fs: Seq<FieldView>) -> Result<RequestView, Seq<char>> {
    if name == "read_file"@ {
        match lookup(fs, "path"@) {
            Some(path) => Ok(RequestView::ReadFile { path }),
            None => Err(missing_arg("path"@)),
        }
    } else if name == "write_file"@ {
        match (lookup(fs, "path"@), lookup(fs, "content"@)) {
            (None, _) => Err(missing_arg("path"@)),
            (Some(_), None) => Err(missing_arg("content"@)),
            (Some(path), Some(content)) => Ok(RequestView::WriteFile { path, content }),
        }
    } else if name == "edit_file"@ {
        match (lookup(fs, "path"@), lookup(fs, "old_string"@), lookup(fs, "new_string"@)) {
            (None, _, _) => Err(missing_arg("path"@)),
            (Some(_), None, _) => Err(missing_arg("old_string"@)),
            (Some(_), Some(_), None) => Err(missing_arg("new_string"@)),
            (Some(path), Some(old), Some(new)) => Ok(RequestView::EditFile { path, old, new }),
        }
    } else if name == "list_files"@ {
        Ok(
            RequestView::ListFiles {
                path: match lookup(fs, "path"@) {
                    Some(p) => p,
                    None => "."@,
                },
            },
        )
    } else if name == "search"@ {
        match lookup(fs, "query"@) {
            None => Err(missing_arg("query"@)),
            Some(query) => Ok(
                RequestView::Search {
                    query,
                    path: match lookup(fs, "path"@) {
                        Some(p) => p,
                        None => "."@,
                    },
                },
            ),
        }
    } else if name == "bash"@ {
        match lookup(fs, "command"@) {
            Some(command) => Ok(RequestView::Bash { command }),
            None => Err(missing_arg("command"@)),
        }
    } else {
        Err(unknown_tool(name))
    }
}

pub open spec fn request_result_view(r: Result<ToolRequest, String>) -> Result<RequestView, Seq<char>> {
    match r {
        Ok(q) => Ok(q@),
        Err(e) => Err(e@),
    }
}

fn missing(key: &str) -> (e: String)
    ensures
        e@ == missing_arg(key@),
{
    let mut e = string_from("missing or non-string argument `");
    push_str(&mut e, key);
    push_str(&mut e, "`");
    e
}

fn arg_str(args: &ToolArgs, key: &str) -> (r: Result<String, String>)
    ensures
        match r {
            Ok(v) => lookup(args@.fields, key@) == Some(v@),
            Err(e) => lookup(args@.fields, key@) is None && e@ == missing_arg(key@),
        },
{
    match args.get_str(key) {
        Some(v) => Ok(v),
        None => Err(missing(key)),
    }
}

fn arg_str_or(args: &ToolArgs, key: &str, default: &str) -> (r: String)
    ensures
        r@ == (match lookup(args@.fields, key@) {
            Some(v) => v,
            None => default@,
        }),
{
    match args.get_str(key) {
        Some(v) => v,
        None => string_from(default),
    }
}

/// Reads the arguments of a call to the tool `name` into a request.
pub fn plan_tool(name: &str, args: &ToolArgs) -> (r: Result<ToolRequest, String>)
    ensures
        request_result_view(r) == request_of(name@, args@.fields),
{
    if same_text(name, "read_file") {
        match arg_str(args, "path") {
            Ok(path) => Ok(ToolRequest::ReadFile { path }),
            Err(e) => Err(e),
        }
    } else if same_text(name, "write_file") {
        match arg_str(args, "path") {
            Err(e) => Err(e),
            Ok(path) => match arg_str(args, "content") {
                Err(e) => Err(e),
                Ok(content) => Ok(ToolRequest::WriteFile { path, content }),
            },
        }
    } else if same_text(name, "edit_file") {
        match arg_str(args, "path") {
            Err(e) => Err(e),
            Ok(path) => match arg_str(args, "old_string") {
                Err(e) => Err(e),
                Ok(old) => match arg_str(args, "new_string") {
                    Err(e) => Err(e),
                    Ok(new) => Ok(ToolRequest::EditFile { path, old, new }),
                },
            },
        }
    } else if same_text(name, "list_files") {
        Ok(ToolRequest::ListFiles { path: arg_str_or(args, "path", ".") })
    } else if same_text(name, "search") {
        match arg_str(args, "query") {
            Err(e) => Err(e),
            Ok(query) => Ok(ToolRequest::Search { query, path: arg_str_or(args, "path", ".") }),
        }
    } else if same_text(name, "bash") {
        match arg_str(args, "command") {
            Ok(command) => Ok(ToolRequest::Bash { command }),
            Err(e) => Err(e),
        }
    } else {
        let mut e = string_from("unknown tool: ");
        push_str(&mut e, name);
        Err(e)
    }
}

// ---------------------------------------------------------------------------
// Output size cap
// ---------------------------------------------------------------------------

/// Cap on how many bytes of tool output go back to the model.
pub const MAX_OUTPUT_BYTES: usize = 30000;

/// How many leading characters of `s` fit in `budget` bytes of UTF-8.
pub open spec fn fitting_prefix(s: Seq<char>, budget: int) -> nat
    decreases s.len(),
{
    if s.len() == 0 || char_width(s[0]) > budget {
        0
    } else {
        1 + fitting_prefix(s.drop_first(), budget - char_width(s[0]))
    }
}

pub open spec fn truncation_notice() -> Seq<char> {
    "\n... (output truncated at 30000 bytes)"@
}

/// Output of at most `MAX_OUTPUT_BYTES` bytes unchanged; longer output cut
/// at the last character boundary within the cap, with a notice appended.
pub open spec fn truncated(s: Seq<char>) -> Seq<char> {
    if utf8_len(s) <= MAX_OUTPUT_BYTES {
        s
    } else {
        s.take(fitting_prefix(s, MAX_OUTPUT_BYTES as int) as int) + truncation_notice()
    }
}

proof fn lemma_fitting_prefix_step(s: Seq<char>, k: int, budget: int)
    requires
        0 <= k < s.len(),
        fitting_prefix(s.skip(k), budget) > 0,
    ensures
        fitting_prefix(s.skip(k), budget) == 1 + fitting_prefix(s.skip(k + 1), budget - char_width(s[k])),
{
    assert(s.skip(k).drop_first() =~= s.skip(k + 1));
}

/// Caps tool output at `MAX_OUTPUT_BYTES` bytes.
pub fn truncate_output(s: String) -> (r: String)
    ensures
        r@ == truncated(s@),
{
    let st = s.as_str();
    assert(st@ == s@);
    let v = chars_of(st);
    let ghost sv = v@;
    assert(sv == s@);
    let mut i: usize = 0;
    let mut used: usize = 0;
    assert(sv.skip(0) =~= sv);
    assert(sv.take(0) =~= Seq::<char>::empty());
    assert(vstd::utf8::encode_utf8(Seq::<char>::empty()) =~= Seq::<u8>::empty());
    // Scan while the characters still fit.
    while i < v.len()
        invariant
            sv == v@,
            sv == s@,
            i <= v.len(),
            used <= MAX_OUTPUT_BYTES,
            used == utf8_len(sv.take(i as int)),
            fitting_prefix(sv, MAX_OUTPUT_BYTES as int) == i + fitting_prefix(
                sv.skip(i as int),
                MAX_OUTPUT_BYTES - used,
            ),
        decreases v.len() - i,
    {
        let w = width_of(v[i]);
        assert(sv.skip(i as int)[0] == sv[i as int]);
        if w > MAX_OUTPUT_BYTES - used {
            assert(fitting_prefix(sv.skip(i as int), MAX_OUTPUT_BYTES - used) == 0);
            proof {
                lemma_utf8_len_take(sv, i as int);
                lemma_utf8_len_monotone(sv, i + 1);
            }
            let head = slice_chars(&v, 0, i);
            let mut out = string_of(&head);
            push_str(&mut out, "\n... (output truncated at 30000 bytes)");
            assert(head@ =~= sv.take(i as int));
            assert(utf8_len(sv.take(i + 1)) > MAX_OUTPUT_BYTES);
            assert(utf8_len(sv) > MAX_OUTPUT_BYTES);
            assert(fitting_prefix(sv, MAX_OUTPUT_BYTES as int) == i);
            assert(sv == s@);
            assert(out@ == sv.take(i as int) + truncation_notice());
            return out;
        }
        proof {
            lemma_utf8_len_take(sv, i as int);
            lemma_fitting_prefix_step(sv, i as int, MAX_OUTPUT_BYTES - used);
        }
        used = used + w;
        i += 1;
    }
    assert(sv.take(i as int) =~= sv);
    s
}

/// A longer prefix never has fewer UTF-8 bytes, so once a prefix exceeds the
/// cap the whole text does.
proof fn lemma_utf8_len_monotone(s: Seq<char>, k: int)
    requires
        0 <= k <= s.len(),
    ensures
        utf8_len(s.take(k)) <= utf8_len(s),
    decreases s.len() - k,
{
    if k < s.len() {
        lemma_utf8_len_take(s, k);
        lemma_utf8_len_monotone(s, k + 1);
    } else {
        assert(s.take(k) =~= s);
    }
}

/// The text fed back to the model for a handler's result: the output capped
/// in size, or the error as `Error: ...`.
pub open spec fn reply_text(result: Result<Seq<char>, Seq<char>>) -> Seq<char> {
    match result {
        Ok(s) => truncated(s),
        Err(e) => "Error: "@ + e,
    }
}

/// Turns a handler's result into the text fed back to the model.
pub fn tool_reply(result: Result<String, String>) -> (r: String)
    ensures
        r@ == reply_text(match result {
            Ok(s) => Ok(s@),
            Err(e) => Err(e@),
        }),
{
    match result {
        Ok(s) => truncate_output(s),
        Err(e) => {
            let mut out = string_from("Error: ");
            push_str(&mut out, e.as_str());
            out
        },
    }
}

// ---------------------------------------------------------------------------
// read_file
// ---------------------------------------------------------------------------

/// A line prefixed with its 1-based number, right-aligned to six columns and
/// followed by a tab (`{:>6}\t{}`).
pub open spec fn numbered_line(n: nat, line: Seq<char>) -> Seq<char> {
    pad_left(decimal(n), 6) + "\t"@ + line
}

pub open spec fn numbered(ls: Seq<Seq<char>>) -> Seq<Seq<char>> {
    Seq::new(ls.len(), |i: int| numbered_line((i + 1) as nat, ls[i]))
}

/// What `read_file` returns for the text of a file: each line numbered, or a
/// note that the file is empty.
pub open spec fn read_text(path: Seq<char>, text: Seq<char>) -> Seq<char> {
    if text.len() == 0 {
        "(file "@ + path + " is empty)"@
    } else {
        join(numbered(lines(text)), "\n"@)
    }
}

fn decimal_chars(n: u64) -> (v: Vec<char>)
    ensures
        v@ == decimal(n as nat),
{
    let mut s = String::new();
    push_decimal(&mut s, n);
    assert(Seq::<char>::empty() + decimal(n as nat) =~= decimal(n as nat));
    chars_of(s.as_str())
}

/// Formats the text of a file read for the model.
pub fn read_report(path: &str, text: &str) -> (r: String)
    ensures
        r@ == read_text(path@, text@),
{
    let t = chars_of(text);
    if t.len() == 0 {
        let mut r = string_from("(file ");
        push_str(&mut r, path);
        push_str(&mut r, " is empty)");
        return r;
    }
    let ls = lines_of(&t);
    let ghost lv = views(ls@);
    let mut out: Vec<String> = Vec::new();
    let mut i: usize = 0;
    while i < ls.len()
        invariant
            lv == views(ls@),
            i <= ls.len(),
            out.deep_view() =~= numbered(lv).take(i as int),
        decreases ls.len() - i,
    {
        let mut line = String::new();
        let num = decimal_chars(i as u64 + 1);
        push_padded(&mut line, &num, 6);
        push_str(&mut line, "\t");
        push_chars(&mut line, &ls[i]);
        assert(line@ =~= numbered_line((i + 1) as nat, lv[i as int]));
        let ghost before = out.deep_view();
        out.push(line);
        assert(out.deep_view() =~= before.push(numbered(lv)[i as int]));
        assert(numbered(lv).take(i + 1) =~= numbered(lv).take(i as int).push(numbered(lv)[i as int]));
        i += 1;
    }
    assert(numbered(lv).take(ls.len() as int) =~= numbered(lv));
    join_strings(&out, "\n")
}

// ---------------------------------------------------------------------------
// write_file
// ---------------------------------------------------------------------------

/// What `write_file` reports once the content is written.
pub fn write_report(path: &str, content: &str) -> (r: String)
    ensures
        r@ == "Wrote "@ + decimal(content.len() as nat) + " bytes to "@ + path@,
{
    let mut r = string_from("Wrote ");
    push_decimal(&mut r, content.len() as u64);
    push_str(&mut r, " bytes to ");
    push_str(&mut r, path);
    r
}

// ---------------------------------------------------------------------------
// edit_file
// ---------------------------------------------------------------------------

/// The leftmost occurrence of `pat` in `s`.
pub open spec fn leftmost(s: Seq<char>, pat: Seq<char>) -> int {
    choose|i: int| occurs_at(s, pat, i) && forall|j: int| 0 <= j < i ==> !occurs_at(s, pat, j)
}

/// `s` with its leftmost occurrence of `old` replaced by `new`
/// (`str::replacen(old, new, 1)` when `old` occurs).
pub open spec fn replace_first(s: Seq<char>, old: Seq<char>, new: Seq<char>) -> Seq<char> {
    let i = leftmost(s, old);
    s.take(i) + new + s.skip(i + old.len())
}

/// The outcome of an edit of `text`: `old` must occur exactly once (counting
/// non-overlapping occurrences), and that occurrence is replaced.
pub open spec fn edit_outcome(path: Seq<char>, text: Seq<char>, old: Seq<char>, new: Seq<char>) -> Result<
    Seq<char>,
    Seq<char>,
> {
    let n = count_matches(text, old);
    if n == 0 {
        Err("`old_string` not found in "@ + path)
    } else if n == 1 {
        Ok(replace_first(text, old, new))
    } else {
        Err(
            "`old_string` appears "@ + decimal(n) + " times in "@ + path
                + "; it must be unique. Add surrounding context to disambiguate."@,
        )
    }
}

proof fn lemma_absent_count_zero(s: Seq<char>, pat: Seq<char>)
    requires
        pat.len() > 0,
        !contains_text(s, pat),
    ensures
        count_matches(s, pat) == 0,
    decreases s.len(),
{
    if s.len() >= pat.len() {
        if s.take(pat.len() as int) == pat {
            assert(occurs_at(s, pat, 0));
        }
        assert(!contains_text(s.drop_first(), pat)) by {
            if contains_text(s.drop_first(), pat) {
                let k = choose|k: int| occurs_at(s.drop_first(), pat, k);
                assert(s.subrange(k + 1, k + 1 + pat.len()) =~= s.drop_first().subrange(
                    k,
                    k + pat.len(),
                ));
                assert(occurs_at(s, pat, k + 1));
            }
        }
        lemma_absent_count_zero(s.drop_first(), pat);
    }
}

/// When `pat` occurs somewhere in `s`, it has a leftmost occurrence.
proof fn lemma_leftmost_exists(s: Seq<char>, pat: Seq<char>, i: int)
    requires
        occurs_at(s, pat, i),
    ensures
        occurs_at(s, pat, leftmost(s, pat)),
        forall|j: int| 0 <= j < leftmost(s, pat) ==> !occurs_at(s, pat, j),
    decreases i,
{
    if exists|j: int| 0 <= j < i && occurs_at(s, pat, j) {
        let j = choose|j: int| 0 <= j < i && occurs_at(s, pat, j);
        lemma_leftmost_exists(s, pat, j);
    } else {
        assert(occurs_at(s, pat, i) && forall|j: int| 0 <= j < i ==> !occurs_at(s, pat, j));
    }
}

/// A non-empty pattern that occurs at exactly one place is counted once.
proof fn lemma_count_unique(s: Seq<char>, pat: Seq<char>, i: int)
    requires
        pat.len() > 0,
        occurs_at(s, pat, i),
        forall|j: int| occurs_at(s, pat, j) ==> j == i,
    ensures
        count_matches(s, pat) == 1,
    decreases s.len(),
{
    if i == 0 {
        assert(s.take(pat.len() as int) =~= s.subrange(0, pat.len() as int));
        let rest = s.skip(pat.len() as int);
        assert(!contains_text(rest, pat)) by {
            if contains_text(rest, pat) {
                let k = choose|k: int| occurs_at(rest, pat, k);
                assert(rest.subrange(k, k + pat.len()) =~= s.subrange(
                    k + pat.len(),
                    k + pat.len() + pat.len(),
                ));
                assert(occurs_at(s, pat, k + pat.len()));
            }
        }
        lemma_absent_count_zero(rest, pat);
    } else {
        if s.take(pat.len() as int) == pat {
            assert(s.subrange(0, pat.len() as int) =~= s.take(pat.len() as int));
            assert(occurs_at(s, pat, 0));
        }
        let t = s.drop_first();
        assert(t.subrange(i - 1, i - 1 + pat.len()) =~= s.subrange(i, i + pat.len()));
        assert forall|j: int| occurs_at(t, pat, j) implies j == i - 1 by {
            assert(t.subrange(j, j + pat.len()) =~= s.subrange(j + 1, j + 1 + pat.len()));
            assert(occurs_at(s, pat, j + 1));
        }
        lemma_count_unique(t, pat, i - 1);
    }
}

/// An edit is undone by the reverse edit: when `new` occurs only once in the
/// edited text, replacing it by `old` gives back the original text.
pub proof fn law_edit_undo(path: Seq<char>, text: Seq<char>, old: Seq<char>, new: Seq<char>, edited: Seq<char>)
    requires
        edit_outcome(path, text, old, new) == Ok::<Seq<char>, Seq<char>>(edited),
        new.len() > 0,
        forall|j: int, k: int| occurs_at(edited, new, j) && occurs_at(edited, new, k) ==> j == k,
    ensures
        edit_outcome(path, edited, new, old) == Ok::<Seq<char>, Seq<char>>(text),
{
    // The edit found an occurrence of `old`, and replaced the leftmost one.
    if old.len() == 0 {
        assert(text.subrange(0, 0) =~= old);
        lemma_leftmost_exists(text, old, 0);
    } else {
        if !contains_text(text, old) {
            lemma_absent_count_zero(text, old);
        }
        let w = choose|w: int| occurs_at(text, old, w);
        lemma_leftmost_exists(text, old, w);
    }
    let i = leftmost(text, old);
    assert(edited == text.take(i) + new + text.skip(i + old.len()));
    // `new` now stands at `i`, and only there.
    assert(edited.subrange(i, i + new.len()) =~= new);
    assert(occurs_at(edited, new, i));
    lemma_count_unique(edited, new, i);
    lemma_leftmost_exists(edited, new, i);
    assert(leftmost(edited, new) == i);
    assert(edited.take(i) + old + edited.skip(i + new.len()) =~= text) by {
        assert(edited.take(i) =~= text.take(i));
        assert(edited.skip(i + new.len()) =~= text.skip(i + old.len()));
        assert(text.subrange(i, i + old.len()) =~= old);
        assert(text =~= text.take(i) + text.subrange(i, i + old.len()) + text.skip(i + old.len()));
    }
}

/// Applies an edit to the text of a file, or explains why it is rejected.
pub fn apply_edit(path: &str, text: &str, old: &str, new: &str) -> (r: Result<String, String>)
    requires
        text@.len() < usize::MAX,
    ensures
        match r {
            Ok(t) => edit_outcome(path@, text@, old@, new@) == Ok::<Seq<char>, Seq<char>>(t@),
            Err(e) => edit_outcome(path@, text@, old@, new@) == Err::<Seq<char>, Seq<char>>(e@),
        },
{
    let t = chars_of(text);
    let o = chars_of(old);
    let n = count_occurrences(&t, &o);
    if n == 0 {
        let mut e = string_from("`old_string` not found in ");
        push_str(&mut e, path);
        return Err(e);
    }
    if n > 1 {
        let mut e = string_from("`old_string` appears ");
        push_decimal(&mut e, n as u64);
        push_str(&mut e, " times in ");
        push_str(&mut e, path);
        push_str(&mut e, "; it must be unique. Add surrounding context to disambiguate.");
        return Err(e);
    }
    // Exactly one occurrence: replace the leftmost one.
    match find_text(&t, &o) {
        Some(i) => {
            let ghost li = leftmost(t@, o@);
            assert(li == i) by {
                assert(occurs_at(t@, o@, i as int) && forall|j: int|
                    0 <= j < i ==> !occurs_at(t@, o@, j));
                if li < i {
                    assert(occurs_at(t@, o@, li));
                } else if li > i {
                    assert(!occurs_at(t@, o@, i as int));
                }
            }
            let mut out = string_of(&slice_chars(&t, 0, i));
            push_str(&mut out, new);
            let tail = slice_chars(&t, i + o.len(), t.len());
            push_chars(&mut out, &tail);
            assert(t@.skip(i + o.len()) =~= tail@);
            Ok(out)
        },
        None => {
            proof {
                if o@.len() == 0 {
                    assert(occurs_at(t@, o@, 0)) by {
                        assert(t@.subrange(0, 0) =~= o@);
                    }
                } else {
                    lemma_absent_count_zero(t@, o@);
                }
            }
            let mut e = string_from("`old_string` not found in ");
            push_str(&mut e, path);
            Err(e)
        },
    }
}

/// What `edit_file` reports once the edit is written.
pub fn edit_report(path: &str) -> (r: String)
    ensures
        r@ == "Edited "@ + path@,
{
    let mut r = string_from("Edited ");
    push_str(&mut r, path);
    r
}

// ---------------------------------------------------------------------------
// list_files
// ---------------------------------------------------------------------------

/// The order of `String`: lexicographic by character (the same as by UTF-8
/// byte, since UTF-8 preserves code point order).
pub open spec fn lex_le(a: Seq<char>, b: Seq<char>) -> bool
    decreases a.len(),
{
    if a.len() == 0 {
        true
    } else if b.len() == 0 {
        false
    } else if (a[0] as u32) < (b[0] as u32) {
        true
    } else if (a[0] as u32) > (b[0] as u32) {
        false
    } else {
        lex_le(a.drop_first(), b.drop_first())
    }
}

pub open spec fn sorted(s: Seq<Seq<char>>) -> bool {
    forall|i: int, j: int| 0 <= i < j < s.len() ==> lex_le(#[trigger] s[i], #[trigger] s[j])
}

proof fn lemma_lex_total(a: Seq<char>, b: Seq<char>)
    ensures
        lex_le(a, b) || lex_le(b, a),
    decreases a.len(),
{
    if a.len() > 0 && b.len() > 0 && (a[0] as u32) == (b[0] as u32) {
        lemma_lex_total(a.drop_first(), b.drop_first());
    }
}

proof fn lemma_lex_refl(a: Seq<char>)
    ensures
        lex_le(a, a),
    decreases a.len(),
{
    if a.len() > 0 {
        lemma_lex_refl(a.drop_first());
    }
}

proof fn lemma_lex_trans(a: Seq<char>, b: Seq<char>, c: Seq<char>)
    requires
        lex_le(a, b),
        lex_le(b, c),
    ensures
        lex_le(a, c),
    decreases a.len(),
{
    if a.len() > 0 && b.len() > 0 && c.len() > 0 && (a[0] as u32) == (b[0] as u32) && (b[0]
        as u32) == (c[0] as u32) {
        lemma_lex_trans(a.drop_first(), b.drop_first(), c.drop_first());
    }
}

proof fn lemma_lex_antisymmetric(a: Seq<char>, b: Seq<char>)
    requires
        lex_le(a, b),
        lex_le(b, a),
    ensures
        a == b,
    decreases a.len(),
{
    if a.len() > 0 && b.len() > 0 {
        vstd::utf8::char_u32_cast(a[0], a[0] as u32);
        vstd::utf8::char_u32_cast(b[0], b[0] as u32);
        lemma_lex_antisymmetric(a.drop_first(), b.drop_first());
        assert(a =~= seq![a[0]] + a.drop_first());
        assert(b =~= seq![b[0]] + b.drop_first());
    } else {
        assert(a =~= b);
    }
}

/// The order of names is a total order.
proof fn lemma_lex_total_ordering()
    ensures
        vstd::relations::total_ordering(|a: Seq<char>, b: Seq<char>| lex_le(a, b)),
{
    let r = |a: Seq<char>, b: Seq<char>| lex_le(a, b);
    assert forall|x: Seq<char>| #[trigger] r(x, x) by {
        lemma_lex_refl(x);
    }
    assert forall|x: Seq<char>, y: Seq<char>| #[trigger] r(x, y) && #[trigger] r(y, x) implies x == y by {
        lemma_lex_antisymmetric(x, y);
    }
    assert forall|x: Seq<char>, y: Seq<char>, z: Seq<char>| #[trigger] r(x, y) && #[trigger] r(
        y,
        z,
    ) implies r(x, z) by {
        lemma_lex_trans(x, y, z);
    }
    assert forall|x: Seq<char>, y: Seq<char>| #[trigger] r(x, y) || #[trigger] r(y, x) by {
        lemma_lex_total(x, y);
    }
}

/// Names in sorted order are determined by the names alone: two sorted
/// arrangements of the same names are the same sequence. So a listing is
/// fixed by the directory's entries, whatever order they are read in.
pub proof fn law_sorted_order_unique(x: Seq<Seq<char>>, y: Seq<Seq<char>>)
    requires
        sorted(x),
        sorted(y),
        x.to_multiset() == y.to_multiset(),
    ensures
        x == y,
{
    let r = |a: Seq<char>, b: Seq<char>| lex_le(a, b);
    lemma_lex_total_ordering();
    assert(vstd::relations::sorted_by(x, r));
    assert(vstd::relations::sorted_by(y, r));
    vstd::seq_lib::lemma_sorted_unique(x, y, r);
}

fn lex_le_chars(a: &Vec<char>, b: &Vec<char>) -> (r: bool)
    ensures
        r == lex_le(a@, b@),
{
    let mut i: usize = 0;
    assert(a@.skip(0) =~= a@ && b@.skip(0) =~= b@);
    while i < a.len() && i < b.len() && a[i] == b[i]
        invariant
            i <= a.len(),
            i <= b.len(),
            lex_le(a@, b@) == lex_le(a@.skip(i as int), b@.skip(i as int)),
        decreases a.len() - i,
    {
        assert(a@.skip(i as int).drop_first() =~= a@.skip(i + 1));
        assert(b@.skip(i as int).drop_first() =~= b@.skip(i + 1));
        i += 1;
    }
    if i == a.len() {
        return true;
    }
    if i == b.len() {
        return false;
    }
    assert(a@.skip(i as int)[0] == a@[i as int] && b@.skip(i as int)[0] == b@[i as int]);
    proof {
        let x = a@[i as int];
        let y = b@[i as int];
        vstd::utf8::char_u32_cast(x, x as u32);
        vstd::utf8::char_u32_cast(y, y as u32);
        assert((x as u32) != (y as u32));
    }
    (a[i] as u32) < (b[i] as u32)
}

/// Sorts names by the order of `String`.
pub fn sort_names(names: Vec<Vec<char>>) -> (r: Vec<Vec<char>>)
    ensures
        sorted(views(r@)),
        views(r@).to_multiset() == views(names@).to_multiset(),
{
    broadcast use vstd::seq_lib::group_to_multiset_ensures;

    let mut work = names;
    let mut out: Vec<Vec<char>> = Vec::new();
    assert(views(out@) =~= Seq::<Seq<char>>::empty());
    assert(views(out@).to_multiset().add(views(work@).to_multiset()) =~= views(names@).to_multiset());
    while work.len() > 0
        invariant
            views(out@).to_multiset().add(views(work@).to_multiset()) == views(names@).to_multiset(),
            sorted(views(out@)),
            forall|i: int, j: int|
                0 <= i < out.len() && 0 <= j < work.len() ==> lex_le(
                    #[trigger] out@[i]@,
                    #[trigger] work@[j]@,
                ),
        decreases work.len(),
    {
        // Find the smallest remaining name.
        let mut m: usize = 0;
        let mut k: usize = 1;
        proof {
            lemma_lex_refl(work@[0]@);
        }
        while k < work.len()
            invariant
                0 < work.len(),
                m < work.len(),
                1 <= k <= work.len(),
                forall|j: int| 0 <= j < k ==> lex_le(#[trigger] work@[m as int]@, work@[j]@),
            decreases work.len() - k,
        {
            if !lex_le_chars(&work[m], &work[k]) {
                proof {
                    lemma_lex_total(work@[m as int]@, work@[k as int]@);
                    assert forall|j: int| 0 <= j < k + 1 implies lex_le(
                        #[trigger] work@[k as int]@,
                        work@[j]@,
                    ) by {
                        if j < k {
                            lemma_lex_trans(work@[k as int]@, work@[m as int]@, work@[j]@);
                        } else {
                            lemma_lex_refl(work@[k as int]@);
                        }
                    }
                }
                m = k;
            } else {
                proof {
                    if !lex_le(work@[m as int]@, work@[k as int]@) {
                        assert(false);
                    }
                }
            }
            k += 1;
        }
        let ghost w = work@;
        let ghost o = out@;
        let x = work.remove(m);
        assert(views(w).remove(m as int) =~= views(work@));
        assert(views(w)[m as int] == x@);
        proof {
            views(w).to_multiset_ensures();
            views(o).to_multiset_ensures();
        }
        assert(views(w).remove(m as int).to_multiset() =~= views(w).to_multiset().remove(
            views(w)[m as int],
        ));
        assert(views(work@).to_multiset() == views(w).to_multiset().remove(x@));
        assert(views(o).push(x@) =~= views(out@.push(x)));
        out.push(x);
        assert(views(out@).to_multiset() == views(o).to_multiset().insert(x@));
        assert(views(out@).to_multiset().add(views(work@).to_multiset()) =~= views(
            names@,
        ).to_multiset()) by {
            assert(views(w).to_multiset().count(x@) > 0) by {
                assert(views(w).contains(x@)) by {
                    assert(views(w)[m as int] == x@);
                }
            }
        }
        assert forall|i: int, j: int| 0 <= i < j < out.len() implies lex_le(
            #[trigger] views(out@)[i],
            #[trigger] views(out@)[j],
        ) by {
            if j == out.len() - 1 {
                assert(out@[i] == o[i]);
                assert(lex_le(o[i]@, w[m as int]@));
            } else {
                assert(views(out@)[i] == views(o)[i] && views(out@)[j] == views(o)[j]);
            }
        }
        assert forall|i: int, j: int| 0 <= i < out.len() && 0 <= j < work.len() implies lex_le(
            #[trigger] out@[i]@,
            #[trigger] work@[j]@,
        ) by {
            let jj = if j < m { j } else { j + 1 };
            assert(work@[j] == w[jj]);
            if i == out.len() - 1 {
                assert(lex_le(w[m as int]@, w[jj]@));
            } else {
                assert(out@[i] == o[i]);
            }
        }
    }
    assert(views(work@).to_multiset() =~= vstd::multiset::Multiset::empty());
    assert(views(out@).to_multiset().add(vstd::multiset::Multiset::empty()) =~= views(
        out@,
    ).to_multiset());
    out
}

/// A directory entry as `list_files` sees it.
pub struct EntryInfo {
    pub name: String,
    pub is_dir: bool,
}

/// Directories are shown with a trailing `/`.
pub open spec fn entry_label(name: Seq<char>, is_dir: bool) -> Seq<char> {
    if is_dir {
        name + "/"@
    } else {
        name
    }
}

pub open spec fn entry_labels(es: Seq<EntryInfo>) -> Seq<Seq<char>> {
    es.map_values(|e: EntryInfo| entry_label(e.name@, e.is_dir))
}

/// The listing of a directory: its entry labels sorted, one per line, or a
/// note that the directory is empty.
pub open spec fn listing_text(path: Seq<char>, labels: Seq<Seq<char>>, r: Seq<char>) -> bool {
    if labels.len() == 0 {
        r == "(directory "@ + path + " is empty)"@
    } else {
        exists|order: Seq<Seq<char>>|
            order.to_multiset() == labels.to_multiset() && sorted(order) && r == join(
                order,
                "\n"@,
            )
    }
}

/// Formats a directory listing for the model.
pub fn listing_report(path: &str, entries: &Vec<EntryInfo>) -> (r: String)
    ensures
        listing_text(path@, entry_labels(entries@), r@),
{
    if entries.len() == 0 {
        let mut r = string_from("(directory ");
        push_str(&mut r, path);
        push_str(&mut r, " is empty)");
        assert(entry_labels(entries@) =~= Seq::<Seq<char>>::empty());
        return r;
    }
    let mut labels: Vec<Vec<char>> = Vec::new();
    let mut i: usize = 0;
    while i < entries.len()
        invariant
            i <= entries.len(),
            views(labels@) =~= entry_labels(entries@).take(i as int),
        decreases entries.len() - i,
    {
        let mut l = chars_of(entries[i].name.as_str());
        if entries[i].is_dir {
            l.push('/');
            assert(l@ =~= entries@[i as int].name@ + "/"@) by {
                reveal_strlit("/");
            }
        }
        let ghost before = views(labels@);
        labels.push(l);
        assert(views(labels@) =~= before.push(l@));
        assert(entry_labels(entries@).take(i + 1) =~= entry_labels(entries@).take(i as int).push(
            entry_labels(entries@)[i as int],
        ));
        i += 1;
    }
    assert(entry_labels(entries@).take(entries.len() as int) =~= entry_labels(entries@));
    let order = sort_names(labels);
    let mut lines: Vec<String> = Vec::new();
    let mut j: usize = 0;
    while j < order.len()
        invariant
            j <= order.len(),
            lines.deep_view() =~= views(order@).take(j as int),
        decreases order.len() - j,
    {
        let ghost before = lines.deep_view();
        lines.push(string_of(&order[j]));
        assert(lines.deep_view() =~= before.push(order@[j as int]@));
        j += 1;
    }
    assert(views(order@).take(order.len() as int) =~= views(order@));
    let r = join_strings(&lines, "\n");
    assert(views(order@).to_multiset() == entry_labels(entries@).to_multiset() && sorted(
        views(order@),
    ) && r@ == join(views(order@), "\n"@));
    r
}

// ---------------------------------------------------------------------------
// search
// ---------------------------------------------------------------------------

/// Match cap for a single `search`.
pub const SEARCH_MAX_HITS: usize = 200;

/// Directory entries the search walk does not enter or read: hidden names
/// and the usual build and dependency directories.
pub open spec fn skipped_name(name: Seq<char>) -> bool {
    (name.len() > 0 && name[0] == '.') || name == ".git"@ || name == "target"@ || name
        == "node_modules"@
}

/// Whether the search walk skips an entry of this name.
pub fn skip_entry(name: &str) -> (r: bool)
    ensures
        r == skipped_name(name@),
{
    let n = chars_of(name);
    (n.len() > 0 && n[0] == '.') || same_text(name, ".git") || same_text(name, "target")
        || same_text(name, "node_modules")
}

/// What the search walk does with the next directory entry.
pub enum WalkStep {
    /// The hit cap is reached: the walk stops.
    Stop,
    /// The entry is hidden or a build or dependency directory.
    Skip,
    /// Enter the directory or scan the file.
    Visit,
}

/// The walk stops once `hits` reach the cap, before looking at the entry;
/// otherwise skipped names are passed over and the rest visited.
pub open spec fn walk_step(hits: nat, name: Seq<char>) -> WalkStep {
    if hits >= SEARCH_MAX_HITS {
        WalkStep::Stop
    } else if skipped_name(name) {
        WalkStep::Skip
    } else {
        WalkStep::Visit
    }
}

/// Decides the walk's step for the next entry, given the hits so far.
pub fn next_walk_step(hits: usize, name: &str) -> (r: WalkStep)
    ensures
        r == walk_step(hits as nat, name@),
{
    if hits >= SEARCH_MAX_HITS {
        WalkStep::Stop
    } else if skip_entry(name) {
        WalkStep::Skip
    } else {
        WalkStep::Visit
    }
}

/// One search hit: `path:line:text`, the text without trailing whitespace.
pub open spec fn hit_text(rel: Seq<char>, lineno: nat, line: Seq<char>) -> Seq<char> {
    rel + ":"@ + decimal(lineno) + ":"@ + trim_end(line)
}

/// The hits among the first `n` lines.
pub open spec fn line_hits(rel: Seq<char>, ls: Seq<Seq<char>>, query: Seq<char>, n: nat) -> Seq<
    Seq<char>,
>
    decreases n,
{
    if n == 0 {
        Seq::<Seq<char>>::empty()
    } else {
        let r = line_hits(rel, ls, query, (n - 1) as nat);
        if contains_text(ls[n - 1], query) {
            r.push(hit_text(rel, n, ls[n - 1]))
        } else {
            r
        }
    }
}

pub open spec fn stop_notice() -> Seq<char> {
    "... (stopped at 200 matches)"@
}

/// The hits after scanning one file: all of its hits appended, unless the cap
/// is reached, in which case hits up to the cap and a notice are appended
/// and the search stops.
pub open spec fn scanned(hits: Seq<Seq<char>>, rel: Seq<char>, text: Seq<char>, query: Seq<char>) -> (
    Seq<Seq<char>>,
    bool,
) {
    let ls = lines(text);
    let all = line_hits(rel, ls, query, ls.len());
    if hits.len() + all.len() >= SEARCH_MAX_HITS {
        (hits + all.take(SEARCH_MAX_HITS - hits.len()) + seq![stop_notice()], true)
    } else {
        (hits + all, false)
    }
}

proof fn lemma_line_hits_prefix(rel: Seq<char>, ls: Seq<Seq<char>>, query: Seq<char>, n: nat, m: nat)
    requires
        n <= m,
    ensures
        line_hits(rel, ls, query, n).len() <= line_hits(rel, ls, query, m).len(),
        line_hits(rel, ls, query, n) == line_hits(rel, ls, query, m).take(
            line_hits(rel, ls, query, n).len() as int,
        ),
    decreases m - n,
{
    let a = line_hits(rel, ls, query, n);
    if n < m {
        lemma_line_hits_prefix(rel, ls, query, n, (m - 1) as nat);
        let b = line_hits(rel, ls, query, (m - 1) as nat);
        let c = line_hits(rel, ls, query, m);
        assert(c.take(b.len() as int) =~= b);
        assert(c.take(a.len() as int) =~= b.take(a.len() as int));
    } else {
        assert(a.take(a.len() as int) =~= a);
    }
}

/// Scans the text of one file for lines containing `query`, appending hits;
/// returns whether the hit cap was reached (and the search must stop).
pub fn scan_file(rel: &str, text: &str, query: &str, hits: &mut Vec<String>) -> (stopped: bool)
    requires
        old(hits).len() < SEARCH_MAX_HITS,
    ensures
        (final(hits).deep_view(), stopped) == scanned(old(hits).deep_view(), rel@, text@, query@),
{
    let t = chars_of(text);
    let q = chars_of(query);
    let ls = lines_of(&t);
    let ghost lv = views(ls@);
    let ghost start = hits.deep_view();
    let mut i: usize = 0;
    while i < ls.len()
        invariant
            lv == views(ls@),
            lv == lines(text@),
            start == old(hits).deep_view(),
            q@ == query@,
            i <= ls.len(),
            start.len() + line_hits(rel@, lv, query@, i as nat).len() < SEARCH_MAX_HITS,
            hits.deep_view() == start + line_hits(rel@, lv, query@, i as nat),
        decreases ls.len() - i,
    {
        let line = &ls[i];
        assert(line@ == lv[i as int]);
        if contains_chars(line, &q) {
            let mut h = string_from(rel);
            push_str(&mut h, ":");
            push_decimal(&mut h, i as u64 + 1);
            push_str(&mut h, ":");
            let trimmed = trim_end_chars(line);
            push_chars(&mut h, &trimmed);
            assert(h@ =~= hit_text(rel@, (i + 1) as nat, lv[i as int]));
            let ghost before = hits.deep_view();
            assert(contains_text(lv[i as int], query@));
            hits.push(h);
            assert(hits.deep_view() =~= before.push(hit_text(rel@, (i + 1) as nat, lv[i as int])));
            assert(hits.deep_view() == start + line_hits(rel@, lv, query@, (i + 1) as nat));
            if hits.len() >= SEARCH_MAX_HITS {
                let ghost now = hits.deep_view();
                hits.push(string_from("... (stopped at 200 matches)"));
                proof {
                    let all = line_hits(rel@, lv, query@, lv.len());
                    let part = line_hits(rel@, lv, query@, (i + 1) as nat);
                    lemma_line_hits_prefix(rel@, lv, query@, (i + 1) as nat, lv.len());
                    assert(part.len() == SEARCH_MAX_HITS - start.len());
                    assert(all.take(SEARCH_MAX_HITS - start.len()) == part);
                    assert(hits.deep_view() =~= now.push(stop_notice()));
                    assert(hits.deep_view() =~= start + all.take(SEARCH_MAX_HITS - start.len()) + seq![stop_notice()]);
                    assert(start.len() + all.len() >= SEARCH_MAX_HITS);
                    assert(scanned(start, rel@, text@, query@) == (hits.deep_view(), true));
                }
                return true;
            }
        }
        i += 1;
    }
    false
}

/// What `search` reports: the hits one per line, or that nothing matched.
pub fn search_report(query: &str, hits: &Vec<String>) -> (r: String)
    ensures
        r@ == (if hits.len() == 0 {
            "No matches for `"@ + query@ + "`."@
        } else {
            join(hits.deep_view(), "\n"@)
        }),
{
    if hits.len() == 0 {
        let mut r = string_from("No matches for `");
        push_str(&mut r, query);
        push_str(&mut r, "`.");
        r
    } else {
        join_strings(hits, "\n")
    }
}

// ---------------------------------------------------------------------------
// bash
// ---------------------------------------------------------------------------

/// How a command ended.
pub enum CommandOutcome {
    /// The command exited; `code` is absent when a signal ended it.
    Exited { code: Option<i32> },
    /// The command ran past the limit and was killed.
    TimedOut { seconds: u64 },
}

/// Standard output, then standard error on a line of its own, or a note
/// that there was no output.
pub open spec fn combined_output(out: Seq<char>, err: Seq<char>) -> Seq<char> {
    let joined = if err.len() == 0 {
        out
    } else if out.len() > 0 && out.last() != '\n' {
        out.push('\n') + err
    } else {
        out + err
    };
    if joined.len() == 0 {
        "(no output)"@
    } else {
        joined
    }
}

/// What `bash` reports for a finished or killed command.
pub open spec fn command_text(out: Seq<char>, err: Seq<char>, outcome: CommandOutcome) -> Seq<char> {
    combined_output(out, err) + match outcome {
        CommandOutcome::Exited { code } => "\n[exit code: "@ + signed_decimal(
            match code {
                Some(c) => c as int,
                None => -1,
            },
        ) + "]"@,
        CommandOutcome::TimedOut { seconds } => "\n[timed out after "@ + decimal(seconds as nat)
            + "s and was killed]"@,
    }
}

/// Formats the output of a command for the model.
pub fn command_report(stdout: &str, stderr: &str, outcome: CommandOutcome) -> (r: String)
    ensures
        r@ == command_text(stdout@, stderr@, outcome),
{
    let o = chars_of(stdout);
    let e = chars_of(stderr);
    let mut out = string_from(stdout);
    if e.len() > 0 {
        if o.len() > 0 && o[o.len() - 1] != '\n' {
            crate::text::push_char(&mut out, '\n');
        }
        push_str(&mut out, stderr);
    }
    assert(out@ =~= (if e@.len() == 0 {
        o@
    } else if o@.len() > 0 && o@.last() != '\n' {
        o@.push('\n') + e@
    } else {
        o@ + e@
    }));
    if out.as_str().is_empty() {
        out = string_from("(no output)");
    }
    match outcome {
        CommandOutcome::Exited { code } => {
            push_str(&mut out, "\n[exit code: ");
            let c: i64 = match code {
                Some(c) => c as i64,
                None => -1,
            };
            push_signed(&mut out, c);
            push_str(&mut out, "]");
        },
        CommandOutcome::TimedOut { seconds } => {
            push_str(&mut out, "\n[timed out after ");
            push_decimal(&mut out, seconds);
            push_str(&mut out, "s and was killed]");
        },
    }
    out
}

// ---------------------------------------------------------------------------
// Previews for the permission gate
// ---------------------------------------------------------------------------

/// Each line of `text` as a diff line with the given marker.
pub open spec fn marked_lines(text: Seq<char>, marker: Seq<char>) -> Seq<char> {
    concat(lines(text).map_values(|l: Seq<char>| marker + l + "\n"@))
}

/// A short preview of a mutating call: a diff for edits, the size and
/// whether the file is created or overwritten for writes, the command for
/// `bash`; nothing for other tools or when a needed argument is missing.
pub open spec fn preview_text(name: Seq<char>, fs: Seq<FieldView>, target_exists: bool) -> Option<
    Seq<char>,
> {
    if name == "edit_file"@ {
        match (lookup(fs, "path"@), lookup(fs, "old_string"@), lookup(fs, "new_string"@)) {
            (Some(p), Some(o), Some(n)) => Some(
                "edit "@ + p + ":\n"@ + marked_lines(o, "  - "@) + marked_lines(n, "  + "@),
            ),
            _ => None,
        }
    } else if name == "write_file"@ {
        match lookup(fs, "path"@) {
            Some(p) => {
                let content = match lookup(fs, "content"@) {
                    Some(c) => c,
                    None => Seq::<char>::empty(),
                };
                Some(
                    (if target_exists {
                        "overwrite"@
                    } else {
                        "create"@
                    }) + " "@ + p + " ("@ + decimal((utf8_len(content) as usize) as nat)
                        + " bytes)"@,
                )
            },
            None => None,
        }
    } else if name == "bash"@ {
        match lookup(fs, "command"@) {
            Some(c) => Some("run: "@ + c),
            None => None,
        }
    } else {
        None
    }
}

fn push_marked(out: &mut String, text: &str, marker: &str)
    ensures
        final(out)@ == old(out)@ + marked_lines(text@, marker@),
{
    let t = chars_of(text);
    let ls = lines_of(&t);
    let ghost lv = views(ls@);
    let ghost items = lv.map_values(|l: Seq<char>| marker@ + l + "\n"@);
    let mut i: usize = 0;
    assert(items.take(0) =~= Seq::<Seq<char>>::empty());
    while i < ls.len()
        invariant
            lv == views(ls@),
            items == lv.map_values(|l: Seq<char>| marker@ + l + "\n"@),
            i <= ls.len(),
            out@ == old(out)@ + concat(items.take(i as int)),
        decreases ls.len() - i,
    {
        push_str(out, marker);
        push_chars(out, &ls[i]);
        push_str(out, "\n");
        assert(items.take(i + 1).drop_last() =~= items.take(i as int));
        assert(items.take(i + 1).last() == marker@ + lv[i as int] + "\n"@);
        assert(out@ =~= old(out)@ + concat(items.take(i + 1)));
        i += 1;
    }
    assert(items.take(ls.len() as int) =~= items);
}

/// A preview of a mutating call for the confirmation prompt; `target_exists`
/// tells whether the file a write names already exists.
pub fn preview(name: &str, args: &ToolArgs, target_exists: bool) -> (r: Option<String>)
    ensures
        r.deep_view() == preview_text(name@, args@.fields, target_exists),
{
    if same_text(name, "edit_file") {
        let path = match args.get_str("path") {
            Some(p) => p,
            None => return None,
        };
        let old = match args.get_str("old_string") {
            Some(p) => p,
            None => return None,
        };
        let new = match args.get_str("new_string") {
            Some(p) => p,
            None => return None,
        };
        let mut out = string_from("edit ");
        push_str(&mut out, path.as_str());
        push_str(&mut out, ":\n");
        push_marked(&mut out, old.as_str(), "  - ");
        push_marked(&mut out, new.as_str(), "  + ");
        Some(out)
    } else if same_text(name, "write_file") {
        let path = match args.get_str("path") {
            Some(p) => p,
            None => return None,
        };
        let content = match args.get_str("content") {
            Some(c) => c,
            None => String::new(),
        };
        let mut out = if target_exists {
            string_from("overwrite")
        } else {
            string_from("create")
        };
        push_str(&mut out, " ");
        push_str(&mut out, path.as_str());
        push_str(&mut out, " (");
        push_decimal(&mut out, content.as_str().len() as u64);
        push_str(&mut out, " bytes)");
        Some(out)
    } else if same_text(name, "bash") {
        match args.get_str("command") {
            Some(c) => {
                let mut out = string_from("run: ");
                push_str(&mut out, c.as_str());
                Some(out)
            },
            None => None,
        }
    } else {
        None
    }
}

// ---------------------------------------------------------------------------
// Laws
// ---------------------------------------------------------------------------

/// An `old_string` found at two places that do not overlap is not unique:
/// the edit is refused, with the number of matches it counted.
pub proof fn law_edit_rejects_repeated(
    path: Seq<char>,
    text: Seq<char>,
    old: Seq<char>,
    new: Seq<char>,
    i: int,
    j: int,
)
    requires
        old.len() > 0,
        occurs_at(text, old, i),
        occurs_at(text, old, j),
        i + old.len() <= j,
    ensures
        count_matches(text, old) >= 2,
        edit_outcome(path, text, old, new) == Err::<Seq<char>, Seq<char>>(
            "`old_string` appears "@ + decimal(count_matches(text, old)) + " times in "@ + path
                + "; it must be unique. Add surrounding context to disambiguate."@,
        ),
{
    crate::text::law_count_two_apart(text, old, i, j);
}

/// A line yields a hit exactly when the query occurs in it somewhere: every
/// line among the first `n` that holds the query gives its hit, and every
/// hit is that of such a line.
pub proof fn law_hits_are_lines_holding_query(
    rel: Seq<char>,
    ls: Seq<Seq<char>>,
    query: Seq<char>,
    n: nat,
)
    requires
        n <= ls.len(),
    ensures
        forall|k: int|
            0 <= k < n && (exists|i: int|
                #![trigger ls[k].subrange(i, i + query.len())]
                0 <= i && i + query.len() <= ls[k].len() && ls[k].subrange(i, i + query.len())
                    == query) ==> #[trigger] line_hits(rel, ls, query, n).contains(
                hit_text(rel, (k + 1) as nat, ls[k]),
            ),
        forall|h: Seq<char>|
            #[trigger] line_hits(rel, ls, query, n).contains(h) ==> exists|k: int|
                0 <= k < n && h == hit_text(rel, (k + 1) as nat, ls[k]) && (exists|i: int|
                #![trigger ls[k].subrange(i, i + query.len())]
                    0 <= i && i + query.len() <= ls[k].len() && ls[k].subrange(i, i + query.len())
                        == query),
    decreases n,
{
    if n > 0 {
        let m = (n - 1) as nat;
        law_hits_are_lines_holding_query(rel, ls, query, m);
        let r = line_hits(rel, ls, query, m);
        let h = hit_text(rel, n, ls[n - 1]);
        let holds = contains_text(ls[n - 1], query);
        assert forall|k: int|
            0 <= k < n && (exists|i: int|
                #![trigger ls[k].subrange(i, i + query.len())]
                0 <= i && i + query.len() <= ls[k].len() && ls[k].subrange(i, i + query.len())
                    == query) implies #[trigger] line_hits(rel, ls, query, n).contains(
            hit_text(rel, (k + 1) as nat, ls[k]),
        ) by {
            if k < m {
                let x = hit_text(rel, (k + 1) as nat, ls[k]);
                assert(r.contains(x));
                if holds {
                    let idx = choose|idx: int| 0 <= idx < r.len() && r[idx] == x;
                    assert(r.push(h)[idx] == x);
                }
            } else {
                let w = choose|i: int|
                    #![trigger ls[k].subrange(i, i + query.len())]
                    0 <= i && i + query.len() <= ls[k].len() && ls[k].subrange(i, i + query.len())
                        == query;
                assert(occurs_at(ls[k], query, w));
                assert(holds);
                assert(r.push(h)[r.len() as int] == h);
            }
        }
        assert forall|x: Seq<char>| #[trigger] line_hits(rel, ls, query, n).contains(x) implies exists|
            k: int,
        |
            0 <= k < n && x == hit_text(rel, (k + 1) as nat, ls[k]) && (exists|i: int|
                #![trigger ls[k].subrange(i, i + query.len())]
                0 <= i && i + query.len() <= ls[k].len() && ls[k].subrange(i, i + query.len())
                    == query) by {
            if holds && x == h {
                let w = choose|i: int| #[trigger] occurs_at(ls[n - 1], query, i);
                assert(0 <= w && w + query.len() <= ls[n - 1].len() && ls[n - 1].subrange(
                    w,
                    w + query.len(),
                ) == query);
            } else {
                if holds {
                    let idx = choose|idx: int| 0 <= idx < r.push(h).len() && r.push(h)[idx] == x;
                    assert(idx < r.len());
                    assert(r[idx] == x);
                }
                assert(r.contains(x));
            }
        }
    }
}

/// A file's hits, when the cap is not reached, are all the lines holding the
/// query.
pub proof fn law_scan_keeps_all_hits(hits: Seq<Seq<char>>, rel: Seq<char>, text: Seq<char>, query: Seq<char>)
    ensures
        !scanned(hits, rel, text, query).1 ==> scanned(hits, rel, text, query).0 == hits
            + line_hits(rel, lines(text), query, lines(text).len()),
{
}

/// `key` is first found at position `i` of the members.
pub open spec fn first_member(fs: Seq<FieldView>, key: Seq<char>, i: int) -> bool {
    &&& 0 <= i < fs.len()
    &&& fs[i].key == key
    &&& forall|j: int| 0 <= j < i ==> fs[j].key != key
}

/// The arguments hold a string member `key` with text `v`.
pub open spec fn has_member(fs: Seq<FieldView>, key: Seq<char>, v: Seq<char>) -> bool {
    exists|i: int| first_member(fs, key, i) && fs[i].value == Some(v)
}

proof fn lemma_lookup_members(fs: Seq<FieldView>, key: Seq<char>)
    ensures
        forall|v: Seq<char>| has_member(fs, key, v) ==> lookup(fs, key) == Some(v),
        (forall|v: Seq<char>| !has_member(fs, key, v)) ==> lookup(fs, key) is None,
    decreases fs.len(),
{
    if fs.len() > 0 {
        let t = fs.drop_first();
        lemma_lookup_members(t, key);
        if fs[0].key == key {
            assert forall|v: Seq<char>| has_member(fs, key, v) implies lookup(fs, key) == Some(v) by {
                let i = choose|i: int| first_member(fs, key, i) && fs[i].value == Some(v);
                assert(i == 0);
            }
            if fs[0].value is Some {
                assert(first_member(fs, key, 0));
                assert(has_member(fs, key, fs[0].value->0));
            }
        } else {
            assert forall|v: Seq<char>| has_member(fs, key, v) implies has_member(t, key, v) by {
                let i = choose|i: int| first_member(fs, key, i) && fs[i].value == Some(v);
                assert(i > 0);
                assert(first_member(t, key, i - 1) && t[i - 1].value == Some(v));
            }
            assert forall|v: Seq<char>| has_member(t, key, v) implies has_member(fs, key, v) by {
                let i = choose|i: int| first_member(t, key, i) && t[i].value == Some(v);
                assert forall|j: int| 0 <= j < i + 1 implies fs[j].key != key by {
                    if j > 0 {
                        assert(fs[j] == t[j - 1]);
                    }
                }
                assert(first_member(fs, key, i + 1) && fs[i + 1].value == Some(v));
            }
        }
    }
}

/// Each request carries the string members it was given: the path, content,
/// strings, query and command are the texts of those members, and `.` stands
/// for a listing or search path only when no string member `path` is given.
pub proof fn law_requests_carry_arguments(
    fs: Seq<FieldView>,
    path: Seq<char>,
    content: Seq<char>,
    old: Seq<char>,
    new: Seq<char>,
    query: Seq<char>,
    command: Seq<char>,
)
    ensures
        has_member(fs, "path"@, path) ==> request_of("list_files"@, fs) == Ok::<
            RequestView,
            Seq<char>,
        >(RequestView::ListFiles { path }),
        (forall|v: Seq<char>| !has_member(fs, "path"@, v)) ==> request_of("list_files"@, fs)
            == Ok::<RequestView, Seq<char>>(RequestView::ListFiles { path: "."@ }),
        has_member(fs, "path"@, path) ==> request_of("read_file"@, fs) == Ok::<
            RequestView,
            Seq<char>,
        >(RequestView::ReadFile { path }),
        has_member(fs, "path"@, path) && has_member(fs, "content"@, content) ==> request_of(
            "write_file"@,
            fs,
        ) == Ok::<RequestView, Seq<char>>(RequestView::WriteFile { path, content }),
        has_member(fs, "path"@, path) && has_member(fs, "old_string"@, old) && has_member(
            fs,
            "new_string"@,
            new,
        ) ==> request_of("edit_file"@, fs) == Ok::<RequestView, Seq<char>>(
            RequestView::EditFile { path, old, new },
        ),
        has_member(fs, "query"@, query) && has_member(fs, "path"@, path) ==> request_of(
            "search"@,
            fs,
        ) == Ok::<RequestView, Seq<char>>(RequestView::Search { query, path }),
        has_member(fs, "query"@, query) && (forall|v: Seq<char>| !has_member(fs, "path"@, v))
            ==> request_of("search"@, fs) == Ok::<RequestView, Seq<char>>(
            RequestView::Search { query, path: "."@ },
        ),
        has_member(fs, "command"@, command) ==> request_of("bash"@, fs) == Ok::<
            RequestView,
            Seq<char>,
        >(RequestView::Bash { command }),
{
    lemma_lookup_members(fs, "path"@);
    lemma_lookup_members(fs, "content"@);
    lemma_lookup_members(fs, "old_string"@);
    lemma_lookup_members(fs, "new_string"@);
    lemma_lookup_members(fs, "query"@);
    lemma_lookup_members(fs, "command"@);
    reveal_strlit("list_files");
    reveal_strlit("write_file");
    reveal_strlit("read_file");
    reveal_strlit("edit_file");
    assert("list_files"@[0] != "write_file"@[0]);
    assert("list_files"@[0] != "read_file"@[0]);
    assert("list_files"@[0] != "edit_file"@[0]);
    reveal_strlit("search");
    reveal_strlit("bash");
    assert("search"@.len() != "read_file"@.len());
    assert("search"@.len() != "write_file"@.len());
    assert("search"@.len() != "edit_file"@.len());
    assert("search"@.len() != "list_files"@.len());
}

proof fn lemma_pad_left_len(text: Seq<char>, width: nat)
    ensures
        pad_left(text, width).len() >= width,
        pad_left(text, width).len() >= text.len(),
{
}

/// `read_file` keeps each line of the file verbatim: numbered line `i` is the
/// line number right-aligned to six columns, a tab, and then the `i`-th line
/// exactly as the file holds it; there is one numbered line per line.
pub proof fn law_numbered_lines_keep_text(ls: Seq<Seq<char>>)
    ensures
        numbered(ls).len() == ls.len(),
        forall|i: int|
            0 <= i < ls.len() ==> {
                let o = #[trigger] numbered(ls)[i];
                let l = ls[i];
                &&& o.len() >= l.len() + 7
                &&& o.skip(o.len() - l.len()) == l
                &&& o[o.len() - l.len() - 1] == '\t'
                &&& o.take(o.len() - l.len() - 1) == pad_left(decimal((i + 1) as nat), 6)
            },
{
    assert forall|i: int| 0 <= i < ls.len() implies {
        let o = #[trigger] numbered(ls)[i];
        let l = ls[i];
        &&& o.len() >= l.len() + 7
        &&& o.skip(o.len() - l.len()) == l
        &&& o[o.len() - l.len() - 1] == '\t'
        &&& o.take(o.len() - l.len() - 1) == pad_left(decimal((i + 1) as nat), 6)
    } by {
        let p = pad_left(decimal((i + 1) as nat), 6);
        lemma_pad_left_len(decimal((i + 1) as nat), 6);
        let o = numbered(ls)[i];
        reveal_strlit("\t");
        assert(o == p + "\t"@ + ls[i]);
        assert(o.skip(o.len() - ls[i].len()) =~= ls[i]);
        assert(o.take(o.len() - ls[i].len() - 1) =~= p);
    }
}


proof fn lemma_utf8_len_front(x: Seq<char>)
    requires
        x.len() > 0,
    ensures
        utf8_len(x) == char_width(x[0]) + utf8_len(x.drop_first()),
{
    crate::text::lemma_encode_scalar_len(x[0]);
}

proof fn lemma_fitting_prefix(s: Seq<char>, b: int)
    requires
        b >= 0,
    ensures
        fitting_prefix(s, b) <= s.len(),
        utf8_len(s.take(fitting_prefix(s, b) as int)) <= b,
        fitting_prefix(s, b) < s.len() ==> utf8_len(s.take(fitting_prefix(s, b) + 1int)) > b,
    decreases s.len(),
{
    let k = fitting_prefix(s, b);
    if s.len() == 0 {
        assert(s.take(0) =~= Seq::<char>::empty());
        assert(vstd::utf8::encode_utf8(Seq::<char>::empty()) =~= Seq::<u8>::empty());
    } else if char_width(s[0]) > b {
        assert(s.take(0) =~= Seq::<char>::empty());
        assert(vstd::utf8::encode_utf8(Seq::<char>::empty()) =~= Seq::<u8>::empty());
        lemma_utf8_len_front(s.take(1));
        assert(s.take(1).drop_first() =~= Seq::<char>::empty());
    } else {
        let t = s.drop_first();
        let w = char_width(s[0]);
        lemma_fitting_prefix(t, b - w);
        let k1 = fitting_prefix(t, b - w);
        lemma_utf8_len_front(s.take(k as int));
        assert(s.take(k as int).drop_first() =~= t.take(k1 as int));
        if k < s.len() {
            lemma_utf8_len_front(s.take(k + 1int));
            assert(s.take(k + 1int).drop_first() =~= t.take(k1 + 1int));
        }
    }
}

/// Output within the cap passes unchanged; longer output keeps the longest
/// prefix that fits in `MAX_OUTPUT_BYTES` bytes (one more character would
/// not fit) and gains the truncation notice.
pub proof fn law_truncation_bounded(s: Seq<char>)
    ensures
        utf8_len(s) <= MAX_OUTPUT_BYTES ==> truncated(s) == s,
        utf8_len(s) > MAX_OUTPUT_BYTES ==> {
            let k = fitting_prefix(s, MAX_OUTPUT_BYTES as int);
            &&& k < s.len()
            &&& truncated(s) == s.take(k as int) + truncation_notice()
            &&& utf8_len(s.take(k as int)) <= MAX_OUTPUT_BYTES
            &&& utf8_len(s.take(k + 1int)) > MAX_OUTPUT_BYTES
        },
{
    lemma_fitting_prefix(s, MAX_OUTPUT_BYTES as int);
    if fitting_prefix(s, MAX_OUTPUT_BYTES as int) == s.len() {
        assert(s.take(s.len() as int) =~= s);
    }
}

/// One file's scan never takes the hits past the cap plus the stop notice,
/// and it stops the search exactly when the cap is reached.
pub proof fn law_search_capped(hits: Seq<Seq<char>>, rel: Seq<char>, text: Seq<char>, query: Seq<char>)
    requires
        hits.len() < SEARCH_MAX_HITS,
    ensures
        scanned(hits, rel, text, query).0.len() <= SEARCH_MAX_HITS + 1,
        scanned(hits, rel, text, query).1 <==> scanned(hits, rel, text, query).0.len()
            == SEARCH_MAX_HITS + 1,
        scanned(hits, rel, text, query).0.take(hits.len() as int) == hits,
{
    let r = scanned(hits, rel, text, query).0;
    assert(r.take(hits.len() as int) =~= hits);
}

} // verus!
