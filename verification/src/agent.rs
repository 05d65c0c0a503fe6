//! The agent's turn-taking as a state machine: the conversation it keeps,
//! what it asks for next (a model reply, tool runs, the end of the turn), how
//! it plans each tool call and applies the permission gate, and the REPL's
//! slash commands. The caller performs the requests and reports back.

use vstd::prelude::*;

use crate::api::{
    call_views, duplicate_calls, message_views, text_message, tool_message, ChatResult, Message,
    MessageView, ToolCall,
};
use crate::text::{
    chars_of, decimal, push_decimal, push_str, same_chars, same_text, string_from, string_of,
    trim, trim_chars,
};
use crate::tools::{
    args_result_view, is_mutating, json_tool_args, lookup, needs_permission, parse_tool_args,
    ToolArgs, ToolArgsView,
};

verus! {

/// Guards a single turn against runaway tool calling.
pub const MAX_STEPS: usize = 50;

pub open spec fn system_prompt() -> Seq<char> {
    "You are flashcode, a concise coding assistant running in a terminal. You help the user with software tasks in their current working directory. You have tools to read, write, and edit files. Prefer edit_file for small changes and read a file before editing it. When you have finished the task, reply with a short summary and no tool calls. Keep prose brief."@
}

pub open spec fn system_message() -> MessageView {
    text_message("system"@, system_prompt())
}

fn system_prompt_message() -> (m: Message)
    ensures
        m@ == system_message(),
{
    Message::system(
        "You are flashcode, a concise coding assistant running in a terminal. You help the user with software tasks in their current working directory. You have tools to read, write, and edit files. Prefer edit_file for small changes and read a file before editing it. When you have finished the task, reply with a short summary and no tool calls. Keep prose brief.",
    )
}

/// What the agent needs next within a turn.
pub enum TurnAction {
    /// Send the conversation to the model and report the reply.
    RequestChat,
    /// Run these tool calls in order, reporting each result.
    RunTools(Vec<ToolCall>),
    /// The model answered without tool calls: the turn is complete.
    Done,
    /// The turn used all its model requests.
    StepLimit,
}

/// The conversation and session state of the agent.
pub struct Agent {
    messages: Vec<Message>,
    auto_approve: bool,
    steps: usize,
    session_tokens: u64,
}

impl Agent {
    /// The conversation so far.
    pub closed spec fn history(&self) -> Seq<MessageView> {
        message_views(self.messages@)
    }

    /// Whether mutating tools run without asking.
    pub closed spec fn auto_approves(&self) -> bool {
        self.auto_approve
    }

    /// Model replies received in the current turn.
    pub closed spec fn steps_taken(&self) -> nat {
        self.steps as nat
    }

    /// Tokens used by all model calls of the session.
    pub closed spec fn tokens(&self) -> u64 {
        self.session_tokens
    }

    /// The conversation starts with the system prompt, and a turn never
    /// counts more than `MAX_STEPS` replies.
    pub closed spec fn wf(&self) -> bool {
        &&& self.messages@.len() >= 1
        &&& self.messages@[0]@ == system_message()
        &&& self.steps <= MAX_STEPS
    }

    pub fn new(auto_approve: bool) -> (a: Agent)
        ensures
            a.wf(),
            a.history() == seq![system_message()],
            a.auto_approves() == auto_approve,
            a.steps_taken() == 0,
            a.tokens() == 0,
    {
        let a = Agent {
            messages: vec![system_prompt_message()],
            auto_approve,
            steps: 0,
            session_tokens: 0,
        };
        assert(a.history() =~= seq![system_message()]);
        a
    }

    /// The conversation, to send to the model.
    pub fn messages(&self) -> (r: &Vec<Message>)
        ensures
            message_views(r@) == self.history(),
    {
        &self.messages
    }

    /// Tokens used by all model calls of the session.
    pub fn session_tokens(&self) -> (r: u64)
        ensures
            r == self.tokens(),
    {
        self.session_tokens
    }

    /// Starts a user turn: the input joins the conversation and a model reply
    /// is requested.
    pub fn begin_turn(&mut self, user_input: &str) -> (action: TurnAction)
        requires
            old(self).wf(),
        ensures
            final(self).wf(),
            final(self).history() == old(self).history().push(text_message("user"@, user_input@)),
            final(self).steps_taken() == 0,
            final(self).tokens() == old(self).tokens(),
            final(self).auto_approves() == old(self).auto_approves(),
            action is RequestChat,
    {
        let ghost before = self.history();
        self.messages.push(Message::user(user_input));
        assert(self.history() =~= before.push(text_message("user"@, user_input@)));
        self.steps = 0;
        TurnAction::RequestChat
    }

    /// Records a model reply: it joins the conversation, its usage is added
    /// to the session's tokens (saturating), and the turn continues with its
    /// tool calls or ends when there are none.
    pub fn record_reply(&mut self, reply: ChatResult) -> (action: TurnAction)
        requires
            old(self).wf(),
        ensures
            final(self).wf(),
            final(self).history() == old(self).history().push(reply.message@),
            final(self).steps_taken() == if old(self).steps_taken() < MAX_STEPS {
                old(self).steps_taken() + 1
            } else {
                old(self).steps_taken()
            },
            final(self).tokens() == match reply.usage {
                Some(u) => if old(self).tokens() + u.total_tokens > u64::MAX {
                    u64::MAX
                } else {
                    (old(self).tokens() + u.total_tokens) as u64
                },
                None => old(self).tokens(),
            },
            final(self).auto_approves() == old(self).auto_approves(),
            match action {
                TurnAction::RunTools(calls) => reply.message@.tool_calls == Some(call_views(calls@))
                    && calls@.len() > 0,
                TurnAction::Done => !(reply.message@.tool_calls matches Some(cs) && cs.len() > 0),
                _ => false,
            },
    {
        let ChatResult { message, usage } = reply;
        if let Some(u) = usage {
            self.session_tokens = self.session_tokens.saturating_add(u.total_tokens);
        }
        if self.steps < MAX_STEPS {
            self.steps = self.steps + 1;
        }
        let calls = match &message.tool_calls {
            Some(cs) => if cs.len() > 0 {
                let d = duplicate_calls(cs);
                assert(message@.tool_calls == Some(call_views(d@)));
                assert(call_views(d@).len() == d@.len());
                Some(d)
            } else {
                assert(call_views(cs@).len() == 0);
                None
            },
            None => None,
        };
        let ghost before = self.history();
        let ghost mv = message@;
        self.messages.push(message);
        assert(self.history() =~= before.push(mv));
        match calls {
            Some(cs) => TurnAction::RunTools(cs),
            None => TurnAction::Done,
        }
    }

    /// After the tool calls of a reply have run: ask the model again, unless
    /// the turn has used all its requests.
    pub fn after_tools(&self) -> (action: TurnAction)
        requires
            self.wf(),
        ensures
            action is RequestChat <==> self.steps_taken() < MAX_STEPS,
            action is StepLimit <==> self.steps_taken() >= MAX_STEPS,
    {
        if self.steps < MAX_STEPS {
            TurnAction::RequestChat
        } else {
            TurnAction::StepLimit
        }
    }

    /// Records the output of a tool call as the `tool` message answering it.
    pub fn record_tool_result(&mut self, call_id: &str, output: &str)
        requires
            old(self).wf(),
        ensures
            final(self).wf(),
            final(self).history() == old(self).history().push(tool_message(call_id@, output@)),
            final(self).steps_taken() == old(self).steps_taken(),
            final(self).tokens() == old(self).tokens(),
            final(self).auto_approves() == old(self).auto_approves(),
    {
        let ghost before = self.history();
        self.messages.push(Message::tool(call_id, output));
        assert(self.history() =~= before.push(tool_message(call_id@, output@)));
    }

    /// Clears the conversation back to the system prompt; the session's
    /// token count and approval mode are kept.
    pub fn reset(&mut self)
        requires
            old(self).wf(),
        ensures
            final(self).wf(),
            final(self).history() == seq![system_message()],
            final(self).steps_taken() == 0,
            final(self).tokens() == old(self).tokens(),
            final(self).auto_approves() == old(self).auto_approves(),
    {
        self.messages = vec![system_prompt_message()];
        self.steps = 0;
        assert(self.history() =~= seq![system_message()]);
    }
}

/// The conversation of a well-formed agent begins with the system prompt.
pub proof fn law_history_starts_with_system(a: &Agent)
    requires
        a.wf(),
    ensures
        a.history().len() >= 1,
        a.history()[0] == system_message(),
        a.steps_taken() <= MAX_STEPS,
{
}

// ---------------------------------------------------------------------------
// Planning a tool call
// ---------------------------------------------------------------------------

/// A one-line description of a call for the terminal: the path for the file
/// tools (`?` when missing), the arguments' JSON for the others.
pub open spec fn description(name: Seq<char>, args: ToolArgsView) -> Seq<char> {
    let path = match lookup(args.fields, "path"@) {
        Some(p) => p,
        None => "?"@,
    };
    if name == "read_file"@ || name == "write_file"@ || name == "edit_file"@ {
        name + " "@ + path
    } else {
        name + " "@ + args.rendered
    }
}

/// Describes a tool call for the terminal.
pub fn describe_call(name: &str, args: &ToolArgs) -> (r: String)
    ensures
        r@ == description(name@, args@),
{
    let path = match args.get_str("path") {
        Some(p) => p,
        None => string_from("?"),
    };
    let mut r = string_from(name);
    push_str(&mut r, " ");
    if same_text(name, "read_file") || same_text(name, "write_file")
        || same_text(name, "edit_file") {
        push_str(&mut r, path.as_str());
    } else {
        push_str(&mut r, args.rendered.as_str());
    }
    r
}

/// What to do with one tool call.
pub enum CallPlan {
    /// Answer the call with this text without running anything.
    Reply(String),
    /// Ask the user first; run the tool only if they agree.
    Confirm { description: String, args: ToolArgs },
    /// Run the tool.
    Run { description: String, args: ToolArgs },
}

pub open spec fn unparsable_args(name: Seq<char>, error: Seq<char>, raw: Seq<char>) -> Seq<char> {
    "Error: could not parse arguments for "@ + name + ": "@ + error + ". Raw: "@ + raw
}

/// The plan for a call, given what its arguments parsed to.
pub open spec fn plan_spec(
    name: Seq<char>,
    raw: Seq<char>,
    parsed: Result<ToolArgsView, Seq<char>>,
    auto_approve: bool,
    plan: CallPlan,
) -> bool {
    match parsed {
        Err(e) => plan matches CallPlan::Reply(t) && t@ == unparsable_args(name, e, raw),
        Ok(av) => match plan {
            CallPlan::Confirm { description: d, args } => is_mutating(name) && !auto_approve
                && args@ == av && d@ == description(name, av),
            CallPlan::Run { description: d, args } => !(is_mutating(name) && !auto_approve)
                && args@ == av && d@ == description(name, av),
            CallPlan::Reply(_) => false,
        },
    }
}

impl Agent {
    /// Plans a tool call from the result of parsing its arguments: an
    /// unparsable text is answered with an error, and mutating tools need the
    /// user's approval unless the session auto-approves.
    pub fn plan_with_args(&self, call: &ToolCall, parsed: Result<ToolArgs, String>) -> (plan:
        CallPlan)
        ensures
            plan_spec(
                call.function.name@,
                call.function.arguments@,
                args_result_view(parsed),
                self.auto_approves(),
                plan,
            ),
    {
        let name = call.function.name.as_str();
        match parsed {
            Err(e) => {
                let mut t = string_from("Error: could not parse arguments for ");
                push_str(&mut t, name);
                push_str(&mut t, ": ");
                push_str(&mut t, e.as_str());
                push_str(&mut t, ". Raw: ");
                push_str(&mut t, call.function.arguments.as_str());
                CallPlan::Reply(t)
            },
            Ok(args) => {
                let description = describe_call(name, &args);
                if needs_permission(name) && !self.auto_approve {
                    CallPlan::Confirm { description, args }
                } else {
                    CallPlan::Run { description, args }
                }
            },
        }
    }

    /// Plans a tool call, parsing its JSON arguments.
    pub fn plan_call(&self, call: &ToolCall) -> (plan: CallPlan)
        ensures
            plan_spec(
                call.function.name@,
                call.function.arguments@,
                json_tool_args(call.function.arguments@),
                self.auto_approves(),
                plan,
            ),
    {
        let parsed = parse_tool_args(call.function.arguments.as_str());
        self.plan_with_args(call, parsed)
    }
}

// ---------------------------------------------------------------------------
// The permission gate
// ---------------------------------------------------------------------------

// Name for what `str::to_lowercase` returns.
pub uninterp spec fn lowercase(s: Seq<char>) -> Seq<char>;

/// `str::to_lowercase`: the Unicode lowercase mapping of the text. The result
/// is named, not described.
#[verifier::external_body]
fn to_lowercase(s: &str) -> (r: String)
    ensures
        r@ == lowercase(s@),
{
    s.to_lowercase()
}

/// The user's answer to a permission prompt.
pub enum Permission {
    /// Run this call.
    Allow,
    /// Run this call and every later one of the session without asking.
    AllowAll,
    /// Do not run the call.
    Deny,
}

/// `y` or `yes` allows, `a` allows for the rest of the session, anything
/// else denies; case and surrounding whitespace do not matter.
pub open spec fn answer_of(line: Seq<char>) -> Permission {
    answer_of_lowered(lowercase(trim(line)))
}

/// The answer given by a trimmed, lowercased line.
pub open spec fn answer_of_lowered(a: Seq<char>) -> Permission {
    if a == "y"@ || a == "yes"@ {
        Permission::Allow
    } else if a == "a"@ {
        Permission::AllowAll
    } else {
        Permission::Deny
    }
}

/// Reads an answer to the permission prompt.
pub fn permission_answer(line: &str) -> (r: Permission)
    ensures
        r == answer_of(line@),
{
    let t = trim_chars(&chars_of(line));
    let lowered = to_lowercase(string_of(&t).as_str());
    classify_answer(lowered.as_str())
}

/// Classifies an answer that is already trimmed and lowercased.
pub fn classify_answer(lowered: &str) -> (r: Permission)
    ensures
        r == answer_of_lowered(lowered@),
{
    let a = chars_of(lowered);
    if same_chars(&a, &chars_of("y")) || same_chars(&a, &chars_of("yes")) {
        Permission::Allow
    } else if same_chars(&a, &chars_of("a")) {
        Permission::AllowAll
    } else {
        Permission::Deny
    }
}

pub open spec fn denied() -> Seq<char> {
    "Error: user denied this action."@
}

pub open spec fn unreadable_answer(error: Seq<char>) -> Seq<char> {
    "Error: could not read confirmation: "@ + error
}

impl Agent {
    /// Applies the user's answer (or the error reading it) to a call that
    /// needed approval: `None` when the call may run, otherwise the text that
    /// answers it. Allowing all switches the session to auto-approval.
    pub fn apply_permission(&mut self, answer: Result<String, String>) -> (r: Option<String>)
        requires
            old(self).wf(),
        ensures
            final(self).wf(),
            final(self).history() == old(self).history(),
            final(self).steps_taken() == old(self).steps_taken(),
            final(self).tokens() == old(self).tokens(),
            match answer {
                Ok(line) => match answer_of(line@) {
                    Permission::Allow => r is None && final(self).auto_approves()
                        == old(self).auto_approves(),
                    Permission::AllowAll => r is None && final(self).auto_approves(),
                    Permission::Deny => r matches Some(t) && t@ == denied()
                        && final(self).auto_approves() == old(self).auto_approves(),
                },
                Err(e) => r matches Some(t) && t@ == unreadable_answer(e@)
                    && final(self).auto_approves() == old(self).auto_approves(),
            },
    {
        match answer {
            Ok(line) => match permission_answer(line.as_str()) {
                Permission::Allow => None,
                Permission::AllowAll => {
                    self.auto_approve = true;
                    None
                },
                Permission::Deny => Some(string_from("Error: user denied this action.")),
            },
            Err(e) => {
                let mut t = string_from("Error: could not read confirmation: ");
                push_str(&mut t, e.as_str());
                Some(t)
            },
        }
    }
}

// ---------------------------------------------------------------------------
// REPL commands
// ---------------------------------------------------------------------------

/// What a slash command asks of the REPL: whether to quit, and what to print.
pub struct CommandReply {
    pub quit: bool,
    pub message: Option<String>,
}

pub open spec fn help_text() -> Seq<char> {
    "commands:\n  /help          show this help\n  /clear, /reset clear the conversation history\n  /tokens        show session token usage\n  /exit, /quit   leave flashcode"@
}

/// Handles a REPL slash command: `/exit` and `/quit` quit, `/help` lists the
/// commands, `/clear` and `/reset` clear the conversation, `/tokens` shows
/// the session's token count; anything else is reported as unknown.
pub fn handle_command(input: &str, agent: &mut Agent) -> (r: CommandReply)
    requires
        old(agent).wf(),
    ensures
        final(agent).wf(),
        final(agent).tokens() == old(agent).tokens(),
        final(agent).auto_approves() == old(agent).auto_approves(),
        if input@ == "/exit"@ || input@ == "/quit"@ {
            &&& r.quit
            &&& r.message is None
            &&& final(agent).history() == old(agent).history()
            &&& final(agent).steps_taken() == old(agent).steps_taken()
        } else if input@ == "/help"@ {
            &&& !r.quit
            &&& final(agent).history() == old(agent).history()
            &&& final(agent).steps_taken() == old(agent).steps_taken()
            &&& r.message matches Some(m)
            &&& m@ == help_text()
        } else if input@ == "/clear"@ || input@ == "/reset"@ {
            &&& !r.quit
            &&& final(agent).history() == seq![system_message()]
            &&& final(agent).steps_taken() == 0
            &&& r.message matches Some(m)
            &&& m@ == "(conversation cleared)"@
        } else if input@ == "/tokens"@ {
            &&& !r.quit
            &&& final(agent).history() == old(agent).history()
            &&& final(agent).steps_taken() == old(agent).steps_taken()
            &&& r.message matches Some(m)
            &&& m@ == "session tokens: "@ + decimal(old(agent).tokens() as nat)
        } else {
            &&& !r.quit
            &&& final(agent).history() == old(agent).history()
            &&& final(agent).steps_taken() == old(agent).steps_taken()
            &&& r.message matches Some(m)
            &&& m@ == "unknown command: "@ + input@ + " (try /help)"@
        },
{
    if same_text(input, "/exit") || same_text(input, "/quit") {
        CommandReply { quit: true, message: None }
    } else if same_text(input, "/help") {
        CommandReply {
            quit: false,
            message: Some(
                string_from(
                    "commands:\n  /help          show this help\n  /clear, /reset clear the conversation history\n  /tokens        show session token usage\n  /exit, /quit   leave flashcode",
                ),
            ),
        }
    } else if same_text(input, "/clear") || same_text(input, "/reset") {
        agent.reset();
        CommandReply { quit: false, message: Some(string_from("(conversation cleared)")) }
    } else if same_text(input, "/tokens") {
        let mut m = string_from("session tokens: ");
        push_decimal(&mut m, agent.session_tokens());
        CommandReply { quit: false, message: Some(m) }
    } else {
        let mut m = string_from("unknown command: ");
        push_str(&mut m, input);
        push_str(&mut m, " (try /help)");
        CommandReply { quit: false, message: Some(m) }
    }
}

} // verus!
