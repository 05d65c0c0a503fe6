//! The chat schema (messages, tool calls, token usage) and the reassembly of
//! a streamed reply: server-sent-event framing, content deltas, and tool-call
//! fragments keyed by index.

use vstd::prelude::*;
use vstd::utf8::{decode_utf8, valid_utf8};

use crate::text::{
    chars_of, concat, lemma_split_concat, lemma_split_no_sep, lemma_split_on_nonempty,
    lemma_split_pieces_free, push_str, same_chars, slice_chars, split_on, starts_with, string_from,
    string_of, trim, trim_chars,
};

verus! {

// ---------------------------------------------------------------------------
// Messages
// ---------------------------------------------------------------------------

/// The name and JSON-encoded arguments of a function the model calls.
pub struct FunctionCall {
    pub name: String,
    pub arguments: String,
}

/// A tool call requested by the model; `kind` is always `"function"`.
pub struct ToolCall {
    pub id: String,
    pub kind: String,
    pub function: FunctionCall,
}

/// A message of the conversation. `content` is absent on assistant turns
/// that only call tools; `tool_call_id` is set only on `tool` results.
pub struct Message {
    pub role: String,
    pub content: Option<String>,
    pub tool_calls: Option<Vec<ToolCall>>,
    pub tool_call_id: Option<String>,
}

/// Token accounting for one model call.
#[derive(Clone, Copy, Debug)]
pub struct Usage {
    pub prompt_tokens: u64,
    pub completion_tokens: u64,
    pub total_tokens: u64,
}

/// One assistant turn plus its token usage.
pub struct ChatResult {
    pub message: Message,
    pub usage: Option<Usage>,
}

pub struct FunctionCallView {
    pub name: Seq<char>,
    pub arguments: Seq<char>,
}

pub struct ToolCallView {
    pub id: Seq<char>,
    pub kind: Seq<char>,
    pub function: FunctionCallView,
}

pub struct MessageView {
    pub role: Seq<char>,
    pub content: Option<Seq<char>>,
    pub tool_calls: Option<Seq<ToolCallView>>,
    pub tool_call_id: Option<Seq<char>>,
}

impl View for FunctionCall {
    type V = FunctionCallView;

    open spec fn view(&self) -> FunctionCallView {
        FunctionCallView { name: self.name@, arguments: self.arguments@ }
    }
}

impl View for ToolCall {
    type V = ToolCallView;

    open spec fn view(&self) -> ToolCallView {
        ToolCallView { id: self.id@, kind: self.kind@, function: self.function@ }
    }
}

pub open spec fn call_views(calls: Seq<ToolCall>) -> Seq<ToolCallView> {
    calls.map_values(|c: ToolCall| c@)
}

impl View for Message {
    type V = MessageView;

    open spec fn view(&self) -> MessageView {
        MessageView {
            role: self.role@,
            content: self.content.deep_view(),
            tool_calls: match self.tool_calls {
                Some(calls) => Some(call_views(calls@)),
                None => None,
            },
            tool_call_id: self.tool_call_id.deep_view(),
        }
    }
}

pub open spec fn message_views(ms: Seq<Message>) -> Seq<MessageView> {
    ms.map_values(|m: Message| m@)
}

/// A message with a role and text, and neither tool calls nor a call id.
pub open spec fn text_message(role: Seq<char>, content: Seq<char>) -> MessageView {
    MessageView { role, content: Some(content), tool_calls: None, tool_call_id: None }
}

/// A `tool` result answering the call `id`.
pub open spec fn tool_message(id: Seq<char>, content: Seq<char>) -> MessageView {
    MessageView {
        role: "tool"@,
        content: Some(content),
        tool_calls: None,
        tool_call_id: Some(id),
    }
}

impl FunctionCall {
    pub fn duplicate(&self) -> (r: FunctionCall)
        ensures
            r@ == self@,
    {
        FunctionCall { name: self.name.clone(), arguments: self.arguments.clone() }
    }
}

impl ToolCall {
    pub fn duplicate(&self) -> (r: ToolCall)
        ensures
            r@ == self@,
    {
        ToolCall { id: self.id.clone(), kind: self.kind.clone(), function: self.function.duplicate() }
    }
}

/// A copy of a list of tool calls.
pub fn duplicate_calls(calls: &Vec<ToolCall>) -> (r: Vec<ToolCall>)
    ensures
        call_views(r@) == call_views(calls@),
{
    let mut r: Vec<ToolCall> = Vec::new();
    let mut i: usize = 0;
    while i < calls.len()
        invariant
            i <= calls.len(),
            call_views(r@) == call_views(calls@).take(i as int),
        decreases calls.len() - i,
    {
        let ghost before = call_views(r@);
        r.push(calls[i].duplicate());
        assert(call_views(r@) =~= before.push(calls@[i as int]@));
        assert(call_views(calls@).take(i + 1) =~= call_views(calls@).take(i as int).push(
            calls@[i as int]@,
        ));
        i += 1;
    }
    assert(call_views(calls@).take(calls.len() as int) =~= call_views(calls@));
    r
}

impl Message {
    /// A `system` message.
    pub fn system(content: &str) -> (m: Message)
        ensures
            m@ == text_message("system"@, content@),
    {
        Message {
            role: string_from("system"),
            content: Some(string_from(content)),
            tool_calls: None,
            tool_call_id: None,
        }
    }

    /// A `user` message.
    pub fn user(content: &str) -> (m: Message)
        ensures
            m@ == text_message("user"@, content@),
    {
        Message {
            role: string_from("user"),
            content: Some(string_from(content)),
            tool_calls: None,
            tool_call_id: None,
        }
    }

    /// A `tool` result message answering a specific tool call.
    pub fn tool(tool_call_id: &str, content: &str) -> (m: Message)
        ensures
            m@ == tool_message(tool_call_id@, content@),
    {
        Message {
            role: string_from("tool"),
            content: Some(string_from(content)),
            tool_calls: None,
            tool_call_id: Some(string_from(tool_call_id)),
        }
    }

    /// A copy of this message.
    pub fn duplicate(&self) -> (r: Message)
        ensures
            r@ == self@,
    {
        Message {
            role: self.role.clone(),
            content: match &self.content {
                Some(c) => Some(c.clone()),
                None => None,
            },
            tool_calls: match &self.tool_calls {
                Some(calls) => Some(duplicate_calls(calls)),
                None => None,
            },
            tool_call_id: match &self.tool_call_id {
                Some(c) => Some(c.clone()),
                None => None,
            },
        }
    }
}

/// The `type` of a tool call when the API leaves it out.
pub fn default_tool_type() -> (r: String)
    ensures
        r@ == "function"@,
{
    string_from("function")
}

// ---------------------------------------------------------------------------
// Streamed tool-call fragments
// ---------------------------------------------------------------------------

/// A fragment of a function call: the name appears once, the arguments
/// stream in pieces.
pub struct FunctionDelta {
    pub name: Option<String>,
    pub arguments: Option<String>,
}

/// A fragment of the tool call at position `index`.
pub struct ToolCallDelta {
    pub index: usize,
    pub id: Option<String>,
    pub function: Option<FunctionDelta>,
}

/// What one streamed choice adds to the reply.
pub struct Delta {
    pub content: Option<String>,
    pub tool_calls: Option<Vec<ToolCallDelta>>,
}

pub struct StreamChoice {
    pub delta: Delta,
}

/// One decoded `data:` payload of the stream.
pub struct StreamChunk {
    pub choices: Vec<StreamChoice>,
    pub usage: Option<Usage>,
}

/// Accumulates the fragments of one tool call.
pub struct ToolCallBuilder {
    pub id: String,
    pub name: String,
    pub arguments: String,
}

pub struct BuilderView {
    pub id: Seq<char>,
    pub name: Seq<char>,
    pub arguments: Seq<char>,
}

impl View for ToolCallBuilder {
    type V = BuilderView;

    open spec fn view(&self) -> BuilderView {
        BuilderView { id: self.id@, name: self.name@, arguments: self.arguments@ }
    }
}

pub open spec fn builder_views(bs: Seq<ToolCallBuilder>) -> Seq<BuilderView> {
    bs.map_values(|b: ToolCallBuilder| b@)
}

pub struct DeltaView {
    pub index: nat,
    pub id: Option<Seq<char>>,
    pub name: Option<Seq<char>>,
    pub arguments: Option<Seq<char>>,
}

impl View for ToolCallDelta {
    type V = DeltaView;

    open spec fn view(&self) -> DeltaView {
        DeltaView {
            index: self.index as nat,
            id: self.id.deep_view(),
            name: match &self.function {
                Some(f) => f.name.deep_view(),
                None => None,
            },
            arguments: match &self.function {
                Some(f) => f.arguments.deep_view(),
                None => None,
            },
        }
    }
}

pub open spec fn delta_views(ds: Seq<ToolCallDelta>) -> Seq<DeltaView> {
    ds.map_values(|d: ToolCallDelta| d@)
}

pub open spec fn empty_builder() -> BuilderView {
    BuilderView { id: Seq::empty(), name: Seq::empty(), arguments: Seq::empty() }
}

/// One fragment merged into the builders: the list grows with empty builders
/// to reach `index`; an id or a name replaces the one held, arguments are
/// appended.
pub open spec fn apply_delta(bs: Seq<BuilderView>, d: DeltaView) -> Seq<BuilderView> {
    let grown = if d.index >= bs.len() {
        bs + Seq::new((d.index + 1 - bs.len()) as nat, |i: int| empty_builder())
    } else {
        bs
    };
    let b = grown[d.index as int];
    grown.update(
        d.index as int,
        BuilderView {
            id: match d.id {
                Some(id) => id,
                None => b.id,
            },
            name: match d.name {
                Some(n) => n,
                None => b.name,
            },
            arguments: match d.arguments {
                Some(a) => b.arguments + a,
                None => b.arguments,
            },
        },
    )
}

/// The fragments merged in the order they arrived.
pub open spec fn apply_deltas(bs: Seq<BuilderView>, ds: Seq<DeltaView>) -> Seq<BuilderView>
    decreases ds.len(),
{
    if ds.len() == 0 {
        bs
    } else {
        apply_delta(apply_deltas(bs, ds.drop_last()), ds.last())
    }
}

pub open spec fn indices_fit(ds: Seq<DeltaView>) -> bool {
    forall|i: int| 0 <= i < ds.len() ==> #[trigger] ds[i].index < usize::MAX
}

/// Merges streamed tool-call fragments into the per-index builders.
pub fn apply_tool_deltas(builders: &mut Vec<ToolCallBuilder>, deltas: Vec<ToolCallDelta>)
    requires
        indices_fit(delta_views(deltas@)),
    ensures
        builder_views(final(builders)@) == apply_deltas(builder_views(old(builders)@), delta_views(deltas@)),
{
    let mut i: usize = 0;
    assert(delta_views(deltas@).take(0) =~= Seq::<DeltaView>::empty());
    while i < deltas.len()
        invariant
            i <= deltas.len(),
            indices_fit(delta_views(deltas@)),
            builder_views(builders@) == apply_deltas(
                builder_views(old(builders)@),
                delta_views(deltas@).take(i as int),
            ),
        decreases deltas.len() - i,
    {
        let d = &deltas[i];
        let ghost dv = d@;
        let ghost before = builder_views(builders@);
        assert(delta_views(deltas@)[i as int] == dv);
        assert(dv.index < usize::MAX);
        assert(delta_views(deltas@).take(i + 1).drop_last() =~= delta_views(deltas@).take(i as int));
        assert(delta_views(deltas@).take(i + 1).last() == dv);
        let ghost grown = if dv.index >= before.len() {
            before + Seq::new((dv.index + 1 - before.len()) as nat, |k: int| empty_builder())
        } else {
            before
        };
        while builders.len() <= d.index
            invariant
                d.index < usize::MAX,
                before.len() <= builders.len(),
                builders.len() == before.len() || builders.len() <= d.index + 1,
                builder_views(builders@) == before + Seq::new(
                    (builders.len() - before.len()) as nat,
                    |k: int| empty_builder(),
                ),
            decreases d.index + 1 - builders.len(),
        {
            let ghost prev = builder_views(builders@);
            builders.push(
                ToolCallBuilder { id: String::new(), name: String::new(), arguments: String::new() },
            );
            assert(builder_views(builders@) =~= prev.push(empty_builder()));
            assert(Seq::new((builders.len() - 1 - before.len()) as nat, |k: int| empty_builder()).push(
                empty_builder(),
            ) =~= Seq::new((builders.len() - before.len()) as nat, |k: int| empty_builder()));
        }
        assert(builder_views(builders@) =~= grown);
        let idx = d.index;
        let ghost old_b = builders@[idx as int]@;
        assert(grown[idx as int] == old_b);
        let mut b = ToolCallBuilder {
            id: builders[idx].id.clone(),
            name: builders[idx].name.clone(),
            arguments: builders[idx].arguments.clone(),
        };
        assert(b@ == old_b);
        if let Some(id) = &d.id {
            b.id = id.clone();
        }
        if let Some(f) = &d.function {
            if let Some(name) = &f.name {
                b.name = name.clone();
            }
            if let Some(args) = &f.arguments {
                push_str(&mut b.arguments, args.as_str());
            }
        }
        builders.set(idx, b);
        assert(builder_views(builders@) =~= apply_delta(before, dv));
        i += 1;
    }
    assert(delta_views(deltas@).take(deltas.len() as int) =~= delta_views(deltas@));
}

/// The tool calls that the builders hold: those with a name, in index order.
pub open spec fn calls_of(bs: Seq<BuilderView>) -> Seq<ToolCallView>
    decreases bs.len(),
{
    if bs.len() == 0 {
        Seq::<ToolCallView>::empty()
    } else {
        let rest = calls_of(bs.drop_last());
        let b = bs.last();
        if b.name.len() > 0 {
            rest.push(
                ToolCallView {
                    id: b.id,
                    kind: "function"@,
                    function: FunctionCallView { name: b.name, arguments: b.arguments },
                },
            )
        } else {
            rest
        }
    }
}

/// The assistant message assembled from streamed text and tool calls.
pub open spec fn assembled(content: Seq<char>, bs: Seq<BuilderView>) -> MessageView {
    MessageView {
        role: "assistant"@,
        content: if content.len() == 0 {
            None
        } else {
            Some(content)
        },
        tool_calls: if calls_of(bs).len() == 0 {
            None
        } else {
            Some(calls_of(bs))
        },
        tool_call_id: None,
    }
}

/// Assembles the final `ChatResult` from streamed pieces.
pub fn finish(content: String, builders: Vec<ToolCallBuilder>, usage: Option<Usage>) -> (r:
    ChatResult)
    ensures
        r.message@ == assembled(content@, builder_views(builders@)),
        r.usage == usage,
{
    let mut calls: Vec<ToolCall> = Vec::new();
    let ghost all = builder_views(builders@);
    let n = builders.len();
    let mut i: usize = 0;
    assert(all.take(0) =~= Seq::<BuilderView>::empty());
    while i < n
        invariant
            n == all.len(),
            n == builders.len(),
            all == builder_views(builders@),
            i <= n,
            call_views(calls@) == calls_of(all.take(i as int)),
        decreases n - i,
    {
        let b = &builders[i];
        assert(b@ == all[i as int]);
        assert(all.take(i + 1).drop_last() =~= all.take(i as int));
        assert(all.take(i + 1).last() == all[i as int]);
        if !b.name.as_str().is_empty() {
            let ghost before = call_views(calls@);
            calls.push(
                ToolCall {
                    id: b.id.clone(),
                    kind: default_tool_type(),
                    function: FunctionCall { name: b.name.clone(), arguments: b.arguments.clone() },
                },
            );
            assert(call_views(calls@) =~= before.push(calls@[calls@.len() - 1]@));
        }
        i += 1;
    }
    assert(all.take(n as int) =~= all);
    let message = Message {
        role: string_from("assistant"),
        content: if content.as_str().is_empty() {
            None
        } else {
            Some(content)
        },
        tool_calls: if calls.len() == 0 {
            None
        } else {
            Some(calls)
        },
        tool_call_id: None,
    };
    ChatResult { message, usage }
}

// ---------------------------------------------------------------------------
// Server-sent-event framing
// ---------------------------------------------------------------------------

// Name for what `String::from_utf8_lossy` gives for a byte sequence.
pub uninterp spec fn utf8_lossy(bytes: Seq<u8>) -> Seq<char>;

/// `String::from_utf8_lossy`: the text of `bytes` with each invalid UTF-8
/// sequence replaced by U+FFFD. The contract names the result and states the
/// one case the documentation spells out: valid UTF-8 decodes unchanged.
/// How invalid sequences are replaced is left to the name.
#[verifier::external_body]
fn decode_lossy(bytes: &[u8]) -> (s: String)
    ensures
        s@ == utf8_lossy(bytes@),
        valid_utf8(bytes@) ==> s@ == decode_utf8(bytes@),
{
    String::from_utf8_lossy(bytes).into_owned()
}

/// What one line of the event stream carries.
pub enum SseLine {
    /// Not a `data:` line, or an empty payload.
    Skip,
    /// The `[DONE]` marker that ends the stream.
    Done,
    /// A payload to decode.
    Data(String),
}

pub enum SseLineView {
    Skip,
    Done,
    Data(Seq<char>),
}

impl View for SseLine {
    type V = SseLineView;

    open spec fn view(&self) -> SseLineView {
        match self {
            SseLine::Skip => SseLineView::Skip,
            SseLine::Done => SseLineView::Done,
            SseLine::Data(d) => SseLineView::Data(d@),
        }
    }
}

/// The meaning of a (trimmed) stream line: a `data:` prefix is required, the
/// payload after it is trimmed, an empty payload is skipped and `[DONE]` ends
/// the stream.
pub open spec fn sse_classify(line: Seq<char>) -> SseLineView {
    if !starts_with(line, "data:"@) {
        SseLineView::Skip
    } else {
        let d = trim(line.skip("data:"@.len() as int));
        if d.len() == 0 {
            SseLineView::Skip
        } else if d == "[DONE]"@ {
            SseLineView::Done
        } else {
            SseLineView::Data(d)
        }
    }
}

/// Classifies one line of the event stream.
pub fn classify_line(line: &str) -> (r: SseLine)
    ensures
        r@ == sse_classify(line@),
{
    let l = chars_of(line);
    let prefix = chars_of("data:");
    if !crate::text::has_prefix(&l, &prefix) {
        return SseLine::Skip;
    }
    let rest = slice_chars(&l, prefix.len(), l.len());
    assert(rest@ =~= line@.skip("data:"@.len() as int));
    let d = trim_chars(&rest);
    if d.len() == 0 {
        return SseLine::Skip;
    }
    let done = chars_of("[DONE]");
    if same_chars(&d, &done) {
        SseLine::Done
    } else {
        SseLine::Data(string_of(&d))
    }
}

/// `i` is the position of the first line feed in `s`.
pub open spec fn first_newline(s: Seq<char>, i: int) -> bool {
    &&& 0 <= i < s.len()
    &&& s[i] == '\n'
    &&& forall|j: int| 0 <= j < i ==> s[j] != '\n'
}

pub struct ChoiceView {
    pub content: Option<Seq<char>>,
    pub deltas: Option<Seq<DeltaView>>,
}

impl View for StreamChoice {
    type V = ChoiceView;

    open spec fn view(&self) -> ChoiceView {
        ChoiceView {
            content: self.delta.content.deep_view(),
            deltas: match &self.delta.tool_calls {
                Some(ds) => Some(delta_views(ds@)),
                None => None,
            },
        }
    }
}

pub open spec fn choice_views(cs: Seq<StreamChoice>) -> Seq<ChoiceView> {
    cs.map_values(|c: StreamChoice| c@)
}

/// The non-empty text deltas of the choices, in order.
pub open spec fn chunk_texts(cs: Seq<ChoiceView>) -> Seq<Seq<char>>
    decreases cs.len(),
{
    if cs.len() == 0 {
        Seq::<Seq<char>>::empty()
    } else {
        let r = chunk_texts(cs.drop_last());
        match cs.last().content {
            Some(t) => if t.len() > 0 {
                r.push(t)
            } else {
                r
            },
            None => r,
        }
    }
}

/// The tool-call fragments of the choices, in order.
pub open spec fn chunk_deltas(cs: Seq<ChoiceView>) -> Seq<DeltaView>
    decreases cs.len(),
{
    if cs.len() == 0 {
        Seq::<DeltaView>::empty()
    } else {
        let r = chunk_deltas(cs.drop_last());
        match cs.last().deltas {
            Some(ds) => r + ds,
            None => r,
        }
    }
}

proof fn lemma_apply_deltas_concat(bs: Seq<BuilderView>, a: Seq<DeltaView>, b: Seq<DeltaView>)
    ensures
        apply_deltas(bs, a + b) == apply_deltas(apply_deltas(bs, a), b),
    decreases b.len(),
{
    if b.len() == 0 {
        assert(a + b =~= a);
    } else {
        assert((a + b).drop_last() =~= a + b.drop_last());
        assert((a + b).last() == b.last());
        lemma_apply_deltas_concat(bs, a, b.drop_last());
    }
}

pub struct ChunkView {
    pub choices: Seq<ChoiceView>,
    pub usage: Option<Usage>,
}

impl View for StreamChunk {
    type V = ChunkView;

    open spec fn view(&self) -> ChunkView {
        ChunkView { choices: choice_views(self.choices@), usage: self.usage }
    }
}

/// What decoded chunks have contributed to a reply: its text, its tool-call
/// builders, and the last usage block.
pub struct AssemblyView {
    pub text: Seq<char>,
    pub calls: Seq<BuilderView>,
    pub usage: Option<Usage>,
}

pub open spec fn empty_assembly() -> AssemblyView {
    AssemblyView { text: Seq::<char>::empty(), calls: Seq::<BuilderView>::empty(), usage: None }
}

/// One decoded chunk folded in: its non-empty texts are appended, its
/// fragments merged, and its usage, if any, replaces the last one.
pub open spec fn after_chunk(a: AssemblyView, c: ChunkView) -> AssemblyView {
    AssemblyView {
        text: a.text + concat(chunk_texts(c.choices)),
        calls: apply_deltas(a.calls, chunk_deltas(c.choices)),
        usage: if c.usage is Some {
            c.usage
        } else {
            a.usage
        },
    }
}

/// Chunks folded in, in the order they arrived.
pub open spec fn after_chunks(a: AssemblyView, cs: Seq<ChunkView>) -> AssemblyView
    decreases cs.len(),
{
    if cs.len() == 0 {
        a
    } else {
        after_chunk(after_chunks(a, cs.drop_last()), cs.last())
    }
}

/// Reassembles a streamed reply: buffers text until whole lines arrive, and
/// accumulates content, tool-call fragments and usage from decoded chunks.
pub struct StreamAssembler {
    buffer: Vec<char>,
    content: String,
    builders: Vec<ToolCallBuilder>,
    usage: Option<Usage>,
}

impl StreamAssembler {
    /// Text received but not yet taken as lines.
    pub closed spec fn pending(&self) -> Seq<char> {
        self.buffer@
    }

    /// The assistant text gathered so far.
    pub closed spec fn text(&self) -> Seq<char> {
        self.content@
    }

    /// The tool-call builders so far.
    pub closed spec fn calls(&self) -> Seq<BuilderView> {
        builder_views(self.builders@)
    }

    /// The last usage block received.
    pub closed spec fn usage(&self) -> Option<Usage> {
        self.usage
    }

    /// What has been gathered from decoded chunks so far.
    pub open spec fn assembly(&self) -> AssemblyView {
        AssemblyView { text: self.text(), calls: self.calls(), usage: self.usage() }
    }

    pub fn new() -> (r: StreamAssembler)
        ensures
            r.pending() == Seq::<char>::empty(),
            r.text() == Seq::<char>::empty(),
            r.calls() == Seq::<BuilderView>::empty(),
            r.usage() is None,
            r.assembly() == empty_assembly(),
    {
        let r = StreamAssembler {
            buffer: Vec::new(),
            content: String::new(),
            builders: Vec::new(),
            usage: None,
        };
        assert(r.calls() =~= Seq::<BuilderView>::empty());
        r
    }

    /// Adds a network chunk, decoded as UTF-8 with invalid sequences
    /// replaced.
    pub fn push_bytes(&mut self, bytes: &[u8])
        ensures
            final(self).pending() == old(self).pending() + utf8_lossy(bytes@),
            final(self).text() == old(self).text(),
            final(self).calls() == old(self).calls(),
            final(self).usage() == old(self).usage(),
    {
        let s = decode_lossy(bytes);
        self.push_text(s.as_str());
    }

    /// Adds decoded text to the line buffer.
    pub fn push_text(&mut self, text: &str)
        ensures
            final(self).pending() == old(self).pending() + text@,
            final(self).text() == old(self).text(),
            final(self).calls() == old(self).calls(),
            final(self).usage() == old(self).usage(),
    {
        let v = chars_of(text);
        let mut i: usize = 0;
        let ghost start = self.buffer@;
        while i < v.len()
            invariant
                i <= v.len(),
                self.buffer@ == start + v@.take(i as int),
                self.content == old(self).content,
                self.builders == old(self).builders,
                self.usage == old(self).usage,
            decreases v.len() - i,
        {
            self.buffer.push(v[i]);
            assert(v@.take(i + 1) =~= v@.take(i as int).push(v@[i as int]));
            i += 1;
        }
        assert(v@.take(v.len() as int) =~= v@);
    }

    /// Takes the next complete line (up to the first line feed) out of the
    /// buffer, trimmed; `None` while no line feed has arrived.
    pub fn next_line(&mut self) -> (r: Option<String>)
        ensures
            r is None <==> !old(self).pending().contains('\n'),
            r is None ==> final(self).pending() == old(self).pending(),
            r matches Some(l) ==> exists|i: int|
                first_newline(old(self).pending(), i) && l@ == trim(old(self).pending().take(i))
                    && final(self).pending() == old(self).pending().skip(i + 1),
            final(self).text() == old(self).text(),
            final(self).calls() == old(self).calls(),
            final(self).usage() == old(self).usage(),
    {
        let mut i: usize = 0;
        while i < self.buffer.len() && self.buffer[i] != '\n'
            invariant
                i <= self.buffer.len(),
                forall|j: int| 0 <= j < i ==> self.buffer@[j] != '\n',
            decreases self.buffer.len() - i,
        {
            i += 1;
        }
        if i == self.buffer.len() {
            assert(!self.buffer@.contains('\n')) by {
                if self.buffer@.contains('\n') {
                    let k = choose|k: int| 0 <= k < self.buffer@.len() && self.buffer@[k] == '\n';
                    assert(self.buffer@[k] != '\n');
                }
            }
            return None;
        }
        let ghost old_buf = self.buffer@;
        let head = slice_chars(&self.buffer, 0, i);
        let line = trim_chars(&head);
        let rest = slice_chars(&self.buffer, i + 1, self.buffer.len());
        self.buffer = rest;
        assert(head@ =~= old_buf.take(i as int));
        assert(self.buffer@ =~= old_buf.skip(i + 1));
        assert(first_newline(old_buf, i as int));
        assert(old_buf.contains('\n')) by {
            assert(old_buf[i as int] == '\n');
        }
        let out = string_of(&line);
        assert(old_buf == old(self).pending());
        assert(first_newline(old_buf, i as int) && out@ == trim(old_buf.take(i as int))
            && self.pending() == old_buf.skip(i + 1));
        Some(out)
    }

    /// Folds one decoded chunk in: its usage (if any) replaces the last one,
    /// non-empty text deltas are appended to the content and returned (for
    /// live display), and tool-call fragments go to the builders.
    pub fn apply_chunk(&mut self, chunk: StreamChunk) -> (texts: Vec<String>)
        requires
            indices_fit(chunk_deltas(choice_views(chunk.choices@))),
        ensures
            texts.deep_view() == chunk_texts(choice_views(chunk.choices@)),
            final(self).text() == old(self).text() + concat(chunk_texts(choice_views(chunk.choices@))),
            final(self).calls() == apply_deltas(
                old(self).calls(),
                chunk_deltas(choice_views(chunk.choices@)),
            ),
            final(self).usage() == (if chunk.usage is Some {
                chunk.usage
            } else {
                old(self).usage()
            }),
            final(self).pending() == old(self).pending(),
            final(self).assembly() == after_chunk(old(self).assembly(), chunk@),
    {
        let StreamChunk { choices, usage } = chunk;
        if usage.is_some() {
            self.usage = usage;
        }
        let ghost all = choice_views(choices@);
        let mut choices = choices;
        let mut texts: Vec<String> = Vec::new();
        let mut i: usize = 0;
        assert(choices.len() == all.len());
        assert(all.take(0) =~= Seq::<ChoiceView>::empty());
        assert(self.content@ =~= old(self).content@ + concat(chunk_texts(all.take(0))));
        assert(self.calls() =~= apply_deltas(old(self).calls(), chunk_deltas(all.take(0))));
        while choices.len() > 0
            invariant
                all.len() <= usize::MAX,
                i + choices.len() == all.len(),
                forall|k: int| 0 <= k < choices.len() ==> #[trigger] choices@[k]@ == all[i + k],
                indices_fit(chunk_deltas(all)),
                texts.deep_view() == chunk_texts(all.take(i as int)),
                self.content@ == old(self).content@ + concat(chunk_texts(all.take(i as int))),
                self.calls() == apply_deltas(old(self).calls(), chunk_deltas(all.take(i as int))),
                self.buffer == old(self).buffer,
                self.usage == (if usage is Some {
                    usage
                } else {
                    old(self).usage
                }),
            decreases choices.len(),
        {
            let ghost before_choices = choices@;
            let c = choices.remove(0);
            assert(c@ == all[i as int]);
            let ghost pre = all.take(i as int);
            let ghost post = all.take(i + 1);
            assert(post.drop_last() =~= pre);
            assert(post.last() == all[i as int]);
            assert forall|k: int| 0 <= k < choices.len() implies #[trigger] choices@[k]@ == all[i + 1 + k] by {
                assert(choices@[k] == before_choices[k + 1]);
            }
            let StreamChoice { delta } = c;
            let Delta { content, tool_calls } = delta;
            let ghost texts_before = texts.deep_view();
            let ghost content_before = self.content@;
            if let Some(t) = content {
                if !t.as_str().is_empty() {
                    assert(concat(chunk_texts(pre).push(t@)).len() >= 0);
                    assert(chunk_texts(pre).push(t@).drop_last() =~= chunk_texts(pre));
                    push_str(&mut self.content, t.as_str());
                    texts.push(t);
                    assert(texts.deep_view() =~= texts_before.push(texts@[texts@.len() - 1]@));
                }
            }
            assert(texts.deep_view() == chunk_texts(post));
            assert(self.content@ =~= old(self).content@ + concat(chunk_texts(post)));
            proof {
                lemma_chunk_deltas_prefix(all, i as int);
            }
            if let Some(ds) = tool_calls {
                let ghost dv = delta_views(ds@);
                assert(chunk_deltas(post) == chunk_deltas(pre) + dv);
                assert(indices_fit(dv)) by {
                    assert forall|k: int| 0 <= k < dv.len() implies #[trigger] dv[k].index < usize::MAX by {
                        assert(chunk_deltas(post)[chunk_deltas(pre).len() + k] == dv[k]);
                    }
                }
                apply_tool_deltas(&mut self.builders, ds);
                proof {
                    lemma_apply_deltas_concat(old(self).calls(), chunk_deltas(pre), dv);
                }
            } else {
                assert(chunk_deltas(post) == chunk_deltas(pre));
            }
            i += 1;
        }
        assert(all.take(i as int) =~= all);
        texts
    }

    /// The reply assembled from everything received.
    pub fn into_result(self) -> (r: ChatResult)
        ensures
            r.message@ == assembled(self.text(), self.calls()),
            r.usage == self.usage(),
    {
        finish(self.content, self.builders, self.usage)
    }
}

/// The fragments of the first `i + 1` choices extend those of the first `i`,
/// and every prefix's fragments are a prefix of all of them.
proof fn lemma_chunk_deltas_prefix(all: Seq<ChoiceView>, i: int)
    requires
        0 <= i < all.len(),
    ensures
        chunk_deltas(all.take(i + 1)).len() <= chunk_deltas(all).len(),
        chunk_deltas(all.take(i + 1)) == chunk_deltas(all).take(chunk_deltas(all.take(i + 1)).len() as int),
    decreases all.len() - i,
{
    if i + 1 == all.len() {
        assert(all.take(i + 1) =~= all);
    } else {
        lemma_chunk_deltas_prefix(all, i + 1);
        let a = all.take(i + 2);
        assert(a.drop_last() =~= all.take(i + 1));
        let x = chunk_deltas(all.take(i + 1));
        let y = chunk_deltas(a);
        assert(x == y.take(x.len() as int)) by {
            match a.last().deltas {
                Some(ds) => {
                    assert(y == x + ds);
                    assert(y.take(x.len() as int) =~= x);
                },
                None => {},
            }
        }
        assert(chunk_deltas(all).take(x.len() as int) =~= chunk_deltas(all).take(y.len() as int).take(x.len() as int));
    }
}

/// The URL of the chat completions endpoint under `base_url`.
pub fn completions_url(base_url: &str) -> (r: String)
    ensures
        r@ == base_url@ + "/chat/completions"@,
{
    let mut r = string_from(base_url);
    push_str(&mut r, "/chat/completions");
    r
}

// ---------------------------------------------------------------------------
// Laws of tool-call reassembly
// ---------------------------------------------------------------------------

/// The argument fragments for position `k`, concatenated in arrival order.
pub open spec fn fragments_for(ds: Seq<DeltaView>, k: nat) -> Seq<char>
    decreases ds.len(),
{
    if ds.len() == 0 {
        Seq::<char>::empty()
    } else {
        let d = ds.last();
        fragments_for(ds.drop_last(), k) + if d.index == k && d.arguments is Some {
            d.arguments->0
        } else {
            Seq::<char>::empty()
        }
    }
}

/// The builders reach one past the largest index seen.
pub open spec fn reach(n: nat, ds: Seq<DeltaView>) -> nat
    decreases ds.len(),
{
    if ds.len() == 0 {
        n
    } else {
        let m = reach(n, ds.drop_last());
        if ds.last().index + 1 > m {
            ds.last().index + 1
        } else {
            m
        }
    }
}

/// However the fragments of different tool calls interleave, the builders
/// grow to one past the largest index seen, and the arguments of each call
/// are what it held before followed by its own fragments in arrival order.
pub proof fn law_arguments_concatenate(bs: Seq<BuilderView>, ds: Seq<DeltaView>)
    ensures
        apply_deltas(bs, ds).len() == reach(bs.len(), ds),
        forall|k: int|
            0 <= k < apply_deltas(bs, ds).len() ==> #[trigger] apply_deltas(bs, ds)[k].arguments
                == (if k < bs.len() {
                bs[k].arguments
            } else {
                Seq::<char>::empty()
            }) + fragments_for(ds, k as nat),
    decreases ds.len(),
{
    if ds.len() == 0 {
        assert forall|k: int| 0 <= k < bs.len() implies #[trigger] bs[k].arguments == bs[k].arguments
            + fragments_for(ds, k as nat) by {
            assert(bs[k].arguments + Seq::<char>::empty() =~= bs[k].arguments);
        }
    } else {
        let init = ds.drop_last();
        let d = ds.last();
        law_arguments_concatenate(bs, init);
        let prev = apply_deltas(bs, init);
        let grown = if d.index >= prev.len() {
            prev + Seq::new((d.index + 1 - prev.len()) as nat, |i: int| empty_builder())
        } else {
            prev
        };
        let next = apply_deltas(bs, ds);
        assert(next == apply_delta(prev, d));
        assert forall|k: int| 0 <= k < next.len() implies #[trigger] next[k].arguments == (if k
            < bs.len() {
            bs[k].arguments
        } else {
            Seq::<char>::empty()
        }) + fragments_for(ds, k as nat) by {
            let before = if k < bs.len() {
                bs[k].arguments
            } else {
                Seq::<char>::empty()
            };
            if k < prev.len() {
                assert(grown[k] == prev[k]);
                assert(prev[k].arguments == before + fragments_for(init, k as nat));
            } else {
                assert(grown[k] == empty_builder());
                assert(k >= bs.len()) by {
                    lemma_reach_at_least(bs.len(), init);
                }
                assert(fragments_for(init, k as nat) =~= Seq::<char>::empty()) by {
                    lemma_no_fragments_beyond(bs.len(), init, k as nat);
                }
                assert(grown[k].arguments =~= before + fragments_for(init, k as nat));
            }
            if k == d.index {
                match d.arguments {
                    Some(a) => {
                        assert(next[k].arguments == grown[k].arguments + a);
                        assert(before + fragments_for(init, k as nat) + a =~= before + (
                        fragments_for(init, k as nat) + a));
                    },
                    None => {
                        assert(fragments_for(ds, k as nat) =~= fragments_for(init, k as nat));
                    },
                }
            } else {
                assert(next[k] == grown[k]);
                assert(fragments_for(ds, k as nat) =~= fragments_for(init, k as nat));
            }
        }
    }
}

proof fn lemma_reach_at_least(n: nat, ds: Seq<DeltaView>)
    ensures
        reach(n, ds) >= n,
        forall|i: int| 0 <= i < ds.len() ==> #[trigger] ds[i].index < reach(n, ds),
    decreases ds.len(),
{
    if ds.len() > 0 {
        lemma_reach_at_least(n, ds.drop_last());
        assert forall|i: int| 0 <= i < ds.len() implies #[trigger] ds[i].index < reach(n, ds) by {
            if i < ds.len() - 1 {
                assert(ds[i] == ds.drop_last()[i]);
            }
        }
    }
}

/// No fragment is addressed at or past the reach of the builders.
proof fn lemma_no_fragments_beyond(n: nat, ds: Seq<DeltaView>, k: nat)
    requires
        k >= reach(n, ds),
    ensures
        fragments_for(ds, k) == Seq::<char>::empty(),
    decreases ds.len(),
{
    if ds.len() > 0 {
        lemma_reach_at_least(n, ds);
        lemma_reach_mono(n, ds);
        lemma_no_fragments_beyond(n, ds.drop_last(), k);
        assert(ds.last() == ds[ds.len() - 1]);
        assert(fragments_for(ds, k) =~= Seq::<char>::empty());
    }
}

proof fn lemma_reach_mono(n: nat, ds: Seq<DeltaView>)
    requires
        ds.len() > 0,
    ensures
        reach(n, ds.drop_last()) <= reach(n, ds),
{
}

/// The id held for position `k`: the last one given for it, else `prior`.
pub open spec fn latest_id(ds: Seq<DeltaView>, k: nat, prior: Seq<char>) -> Seq<char>
    decreases ds.len(),
{
    if ds.len() == 0 {
        prior
    } else if ds.last().index == k && ds.last().id is Some {
        ds.last().id->0
    } else {
        latest_id(ds.drop_last(), k, prior)
    }
}

/// The name held for position `k`: the last one given for it, else `prior`.
pub open spec fn latest_name(ds: Seq<DeltaView>, k: nat, prior: Seq<char>) -> Seq<char>
    decreases ds.len(),
{
    if ds.len() == 0 {
        prior
    } else if ds.last().index == k && ds.last().name is Some {
        ds.last().name->0
    } else {
        latest_name(ds.drop_last(), k, prior)
    }
}

/// Fragments that never address position `k` leave its id and name as they
/// were.
proof fn lemma_latest_untouched(ds: Seq<DeltaView>, k: nat, prior: Seq<char>)
    requires
        forall|i: int| 0 <= i < ds.len() ==> #[trigger] ds[i].index != k,
    ensures
        latest_id(ds, k, prior) == prior,
        latest_name(ds, k, prior) == prior,
    decreases ds.len(),
{
    if ds.len() > 0 {
        assert(ds.last() == ds[ds.len() - 1]);
        assert forall|i: int| 0 <= i < ds.drop_last().len() implies #[trigger] ds.drop_last()[i].index
            != k by {
            assert(ds.drop_last()[i] == ds[i]);
        }
        lemma_latest_untouched(ds.drop_last(), k, prior);
    }
}

/// However the fragments of different tool calls interleave, the id and the
/// name of each call are the last ones given for its position, or those it
/// held before (empty for a position the fragments opened).
pub proof fn law_last_id_and_name_win(bs: Seq<BuilderView>, ds: Seq<DeltaView>)
    ensures
        apply_deltas(bs, ds).len() == reach(bs.len(), ds),
        forall|k: int|
            0 <= k < apply_deltas(bs, ds).len() ==> {
                &&& #[trigger] apply_deltas(bs, ds)[k].id == latest_id(
                    ds,
                    k as nat,
                    if k < bs.len() {
                        bs[k].id
                    } else {
                        Seq::<char>::empty()
                    },
                )
                &&& apply_deltas(bs, ds)[k].name == latest_name(
                    ds,
                    k as nat,
                    if k < bs.len() {
                        bs[k].name
                    } else {
                        Seq::<char>::empty()
                    },
                )
            },
    decreases ds.len(),
{
    law_arguments_concatenate(bs, ds);
    if ds.len() > 0 {
        let init = ds.drop_last();
        let d = ds.last();
        law_last_id_and_name_win(bs, init);
        let prev = apply_deltas(bs, init);
        let grown = if d.index >= prev.len() {
            prev + Seq::new((d.index + 1 - prev.len()) as nat, |i: int| empty_builder())
        } else {
            prev
        };
        let next = apply_deltas(bs, ds);
        assert(next == apply_delta(prev, d));
        assert forall|k: int| 0 <= k < next.len() implies {
            &&& #[trigger] next[k].id == latest_id(
                ds,
                k as nat,
                if k < bs.len() {
                    bs[k].id
                } else {
                    Seq::<char>::empty()
                },
            )
            &&& next[k].name == latest_name(
                ds,
                k as nat,
                if k < bs.len() {
                    bs[k].name
                } else {
                    Seq::<char>::empty()
                },
            )
        } by {
            let pid = if k < bs.len() {
                bs[k].id
            } else {
                Seq::<char>::empty()
            };
            let pname = if k < bs.len() {
                bs[k].name
            } else {
                Seq::<char>::empty()
            };
            if k < prev.len() {
                assert(grown[k] == prev[k]);
            } else {
                assert(grown[k] == empty_builder());
                lemma_reach_at_least(bs.len(), init);
                assert(k >= bs.len());
                lemma_latest_untouched(init, k as nat, Seq::<char>::empty());
            }
            assert(grown[k].id == latest_id(init, k as nat, pid));
            assert(grown[k].name == latest_name(init, k as nat, pname));
            if k != d.index {
                assert(next[k] == grown[k]);
            }
        }
    }
}

// ---------------------------------------------------------------------------
// Laws of text deltas
// ---------------------------------------------------------------------------

/// The content of each choice, empty where it carries none.
pub open spec fn contents(cs: Seq<ChoiceView>) -> Seq<Seq<char>> {
    cs.map_values(
        |c: ChoiceView|
            match c.content {
                Some(t) => t,
                None => Seq::<char>::empty(),
            },
    )
}

proof fn lemma_chunk_texts_filter(cs: Seq<ChoiceView>)
    ensures
        chunk_texts(cs) == contents(cs).filter(|t: Seq<char>| t.len() > 0),
        concat(chunk_texts(cs)) == concat(contents(cs)),
    decreases cs.len(),
{
    let pred = |t: Seq<char>| t.len() > 0;
    let p = contents(cs);
    reveal(Seq::filter);
    if cs.len() > 0 {
        let init = cs.drop_last();
        lemma_chunk_texts_filter(init);
        let q = contents(init);
        assert(p.drop_last() =~= q);
        let last = p.last();
        assert(last == match cs.last().content {
            Some(t) => t,
            None => Seq::<char>::empty(),
        });
        assert(p.filter(pred) == if pred(last) {
            q.filter(pred).push(last)
        } else {
            q.filter(pred)
        });
        assert(concat(p) == concat(q) + last);
        if last.len() > 0 {
            let r = chunk_texts(init);
            assert(chunk_texts(cs) == r.push(last));
            assert(r.push(last).drop_last() =~= r);
            assert(concat(r.push(last)) == concat(r) + last);
        } else {
            assert(chunk_texts(cs) == chunk_texts(init));
            assert(concat(q) + last =~= concat(q));
        }
    } else {
        assert(p =~= Seq::<Seq<char>>::empty());
    }
}

/// Every text delta counts, whatever characters it holds: the texts shown
/// for a chunk are exactly its non-empty contents in arrival order, and the
/// reply's text grows by all its contents, verbatim; a chunk of one choice
/// with text `t` adds exactly `t`.
pub proof fn law_every_text_delta_kept(a: AssemblyView, c: ChunkView, t: Seq<char>)
    ensures
        chunk_texts(c.choices) == contents(c.choices).filter(|x: Seq<char>| x.len() > 0),
        after_chunk(a, c).text == a.text + concat(contents(c.choices)),
        c.choices == seq![ChoiceView { content: Some(t), deltas: None }] ==> after_chunk(a, c).text
            == a.text + t,
{
    lemma_chunk_texts_filter(c.choices);
    if c.choices == seq![ChoiceView { content: Some(t), deltas: None }] {
        let p = contents(c.choices);
        assert(p =~= seq![t]);
        assert(p.drop_last() =~= Seq::<Seq<char>>::empty());
        assert(concat(p) == concat(p.drop_last()) + t);
        assert(concat(p) =~= t);
    }
}

// ---------------------------------------------------------------------------
// The whole reply
// ---------------------------------------------------------------------------

/// The non-empty text deltas of all chunks, in order.
pub open spec fn all_texts(cs: Seq<ChunkView>) -> Seq<Seq<char>>
    decreases cs.len(),
{
    if cs.len() == 0 {
        Seq::<Seq<char>>::empty()
    } else {
        all_texts(cs.drop_last()) + chunk_texts(cs.last().choices)
    }
}

/// The tool-call fragments of all chunks, in order.
pub open spec fn all_deltas(cs: Seq<ChunkView>) -> Seq<DeltaView>
    decreases cs.len(),
{
    if cs.len() == 0 {
        Seq::<DeltaView>::empty()
    } else {
        all_deltas(cs.drop_last()) + chunk_deltas(cs.last().choices)
    }
}

/// The usage of the last chunk that carries one.
pub open spec fn last_usage(cs: Seq<ChunkView>) -> Option<Usage>
    decreases cs.len(),
{
    if cs.len() == 0 {
        None
    } else if cs.last().usage is Some {
        cs.last().usage
    } else {
        last_usage(cs.drop_last())
    }
}

proof fn lemma_concat_append(a: Seq<Seq<char>>, b: Seq<Seq<char>>)
    ensures
        concat(a + b) == concat(a) + concat(b),
    decreases b.len(),
{
    if b.len() == 0 {
        assert(a + b =~= a);
        assert(concat(a) + concat(b) =~= concat(a));
    } else {
        assert((a + b).drop_last() =~= a + b.drop_last());
        assert((a + b).last() == b.last());
        lemma_concat_append(a, b.drop_last());
        assert(concat(a) + concat(b.drop_last()) + b.last() =~= concat(a) + (concat(b.drop_last())
            + b.last()));
    }
}

/// A whole streamed reply: folding decoded chunks, in order, into a fresh
/// assembler gathers the concatenation of all their texts, all their
/// tool-call fragments merged into no builders, and the usage of the last
/// chunk that carried one; the reply is then the message assembled from the
/// text and the builders (what `finish` builds), with that usage.
pub proof fn law_stream_assembles_reply(cs: Seq<ChunkView>)
    ensures
        after_chunks(empty_assembly(), cs) == (AssemblyView {
            text: concat(all_texts(cs)),
            calls: apply_deltas(Seq::<BuilderView>::empty(), all_deltas(cs)),
            usage: last_usage(cs),
        }),
        assembled(after_chunks(empty_assembly(), cs).text, after_chunks(empty_assembly(), cs).calls)
            == assembled(
            concat(all_texts(cs)),
            apply_deltas(Seq::<BuilderView>::empty(), all_deltas(cs)),
        ),
    decreases cs.len(),
{
    if cs.len() > 0 {
        let init = cs.drop_last();
        let c = cs.last();
        law_stream_assembles_reply(init);
        lemma_concat_append(all_texts(init), chunk_texts(c.choices));
        lemma_apply_deltas_concat(
            Seq::<BuilderView>::empty(),
            all_deltas(init),
            chunk_deltas(c.choices),
        );
    } else {
        assert(concat(Seq::<Seq<char>>::empty()) =~= Seq::<char>::empty());
    }
}

// ---------------------------------------------------------------------------
// Laws of line framing
// ---------------------------------------------------------------------------

/// The lines of buffered text that a line feed has completed.
pub open spec fn complete_lines(s: Seq<char>) -> Seq<Seq<char>> {
    split_on(s, '\n').drop_last()
}

/// The text after the last line feed, still waiting for its end.
pub open spec fn partial_line(s: Seq<char>) -> Seq<char> {
    split_on(s, '\n').last()
}

proof fn lemma_split_append(x: Seq<char>, y: Seq<char>, sep: char)
    ensures
        split_on(x + y, sep) == split_on(x, sep).drop_last() + split_on(
            split_on(x, sep).last() + y,
            sep,
        ),
    decreases y.len(),
{
    lemma_split_on_nonempty(x, sep);
    let p = split_on(x, sep);
    if y.len() == 0 {
        assert(x + y =~= x);
        assert(p.last() + y =~= p.last());
        lemma_split_pieces_free(x, sep);
        assert forall|j: int| 0 <= j < p.last().len() implies p.last()[j] != sep by {
            assert(p[p.len() - 1][j] != sep);
        }
        lemma_split_no_sep(p.last(), sep);
        assert(p.drop_last() + seq![p.last()] =~= p);
    } else {
        let y0 = y.drop_last();
        lemma_split_append(x, y0, sep);
        assert((x + y).drop_last() =~= x + y0);
        assert((x + y).last() == y.last());
        assert((p.last() + y).drop_last() =~= p.last() + y0);
        assert((p.last() + y).last() == y.last());
        let q = split_on(p.last() + y0, sep);
        lemma_split_on_nonempty(p.last() + y0, sep);
        if y.last() == sep {
            assert((p.drop_last() + q).push(Seq::<char>::empty()) =~= p.drop_last() + q.push(
                Seq::<char>::empty(),
            ));
        } else {
            let pq = p.drop_last() + q;
            assert(pq.update(pq.len() - 1, pq.last().push(y.last())) =~= p.drop_last() + q.update(
                q.len() - 1,
                q.last().push(y.last()),
            ));
        }
    }
}

/// Text arriving in two pieces yields the same lines as arriving at once:
/// the lines completed by the first piece, then those completed when the
/// second joins the first's unfinished line.
pub proof fn law_lines_independent_of_chunking(x: Seq<char>, y: Seq<char>)
    ensures
        complete_lines(x + y) == complete_lines(x) + complete_lines(partial_line(x) + y),
        partial_line(x + y) == partial_line(partial_line(x) + y),
{
    lemma_split_append(x, y, '\n');
    lemma_split_on_nonempty(partial_line(x) + y, '\n');
    let p = split_on(x, '\n');
    let q = split_on(partial_line(x) + y, '\n');
    assert((p.drop_last() + q).drop_last() =~= p.drop_last() + q.drop_last());
}

/// `next_line` hands out the first complete line and leaves the others, and
/// the unfinished line, in the buffer; without a line feed there is none.
pub proof fn law_next_line_takes_first_line(s: Seq<char>, i: int)
    requires
        first_newline(s, i),
    ensures
        complete_lines(s).len() > 0,
        s.take(i) == complete_lines(s)[0],
        complete_lines(s.skip(i + 1)) == complete_lines(s).drop_first(),
        partial_line(s.skip(i + 1)) == partial_line(s),
{
    let head = s.take(i);
    let tail = s.skip(i + 1);
    assert(s =~= head + seq!['\n'] + tail);
    lemma_split_concat(head, tail, '\n');
    lemma_split_no_sep(head, '\n');
    lemma_split_on_nonempty(tail, '\n');
    let q = split_on(tail, '\n');
    assert(seq![head] + q == split_on(s, '\n'));
    assert((seq![head] + q).drop_last() =~= seq![head] + q.drop_last());
    assert((seq![head] + q.drop_last()).drop_first() =~= q.drop_last());
}

/// Text without a line feed completes no line.
pub proof fn law_no_line_without_newline(s: Seq<char>)
    requires
        !s.contains('\n'),
    ensures
        complete_lines(s).len() == 0,
        partial_line(s) == s,
{
    assert forall|j: int| 0 <= j < s.len() implies s[j] != '\n' by {
        if s[j] == '\n' {
            assert(s.contains('\n'));
        }
    }
    lemma_split_no_sep(s, '\n');
}

} // verus!
