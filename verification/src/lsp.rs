//! The protocol messages and the dispatcher that answers them.

use vstd::prelude::*;
use vstd::arithmetic::power2::{
    lemma2_to64, lemma_pow2_pos, lemma_pow2_strictly_increases, lemma_pow2_unfold, pow2,
};
use vstd::string::*;
use crate::editor::{
    document_of, lemma_label_position, line_ok, lines_ok, open_document, parent_of, tree_labels,
    valid_tree_text, Document, EditorState, FileState,
};
use crate::rpc::MsgParseError;
use crate::text::{ascii_chars, decimal, push_decimal};

verus! {

/// The header of every message: the JSON-RPC version.
#[derive(Debug)]
pub struct Message {
    pub jsonrpc: String,
}

/// A message from the client that expects no answer.
#[derive(Debug)]
pub struct Notification {
    pub message: Message,
    pub method: String,
}

/// A message from the client that expects an answer with the same id.
#[derive(Debug)]
pub struct RequestMessage {
    pub base_message: Notification,
    pub id: i64,
}

/// The answer to a request: it carries the request's id.
#[derive(Debug)]
pub struct ResponseMessage {
    pub message: Message,
    pub id: i64,
}

/// The first request of a session.
#[derive(Debug)]
pub struct InitializeRequest {
    pub request: RequestMessage,
    pub params: InitializeParams,
}

#[derive(Debug)]
pub struct InitializeParams {
    pub process_id: i64,
    pub client_info: Option<Info>,
}

/// The name and version of a client or of the server.
#[derive(Debug)]
pub struct Info {
    pub name: String,
    pub version: String,
}

/// The answer to the first request.
#[derive(Debug)]
pub struct InitializeResponse {
    pub response: ResponseMessage,
    pub result: InitializeResult,
}

#[derive(Debug)]
pub struct InitializeResult {
    pub capabilities: ServerCapabilities,
    pub server_info: Info,
}

/// How documents are kept in step: only whole-document sync is offered.
pub struct TextDocumentSyncKind {}

impl TextDocumentSyncKind {
    /// Every change carries the whole text of the document.
    pub const FULL: usize = 1;
}

/// What the server offers.
#[derive(Debug)]
pub struct ServerCapabilities {
    pub text_document_sync: usize,
    pub hover_provider: bool,
}

/// Sent when a document is opened.
#[derive(Debug)]
pub struct DidOpenTextDocumentNotification {
    pub notification: Notification,
    pub params: DidOpenTextDocumentParams,
}

#[derive(Debug)]
pub struct DidOpenTextDocumentParams {
    pub text_document: TextDocumentItem,
}

/// Sent when a document has changed.
#[derive(Debug)]
pub struct TextDocumentDidChangeNotification {
    pub notification: Notification,
    pub params: DidChangeTextDocumentParams,
}

#[derive(Debug)]
pub struct DidChangeTextDocumentParams {
    pub text_document: VersionTextDocumentIdentifier,
    pub content_changes: Vec<TextDocumentContentChangeEvent>,
}

#[derive(Debug)]
pub struct VersionTextDocumentIdentifier {
    pub uri: String,
    pub version: i32,
}

/// One change: the new text of the whole document.
#[derive(Debug)]
pub struct TextDocumentContentChangeEvent {
    pub text: String,
}

/// A document as the client opens it.
#[derive(Debug)]
pub struct TextDocumentItem {
    pub uri: String,
    pub language_id: String,
    pub version: i64,
    pub text: String,
}

/// Asks what stands at a position of a document.
#[derive(Debug)]
pub struct HoverRequest {
    pub request: RequestMessage,
    pub params: HoverParams,
}

#[derive(Debug)]
pub struct HoverParams {
    pub pos_params: TextDocumentPositionParams,
}

/// The answer to a hover request.
#[derive(Debug)]
pub struct HoverResponse {
    pub response: ResponseMessage,
    pub result: HoverResult,
}

#[derive(Debug)]
pub struct HoverResult {
    pub contents: String,
}

#[derive(Debug)]
pub struct TextDocumentPositionParams {
    pub text_document: TextDocumentIdentifier,
    pub position: Position,
}

#[derive(Debug)]
pub struct TextDocumentIdentifier {
    pub uri: String,
}

/// A place in a document: the line, and the offset within it.
#[derive(Debug)]
pub struct Position {
    pub line: i32,
    pub character: i32,
}

/// The methods that the server knows.
#[derive(Debug, Clone, Copy, PartialEq, Eq)]
pub enum Method {
    Initialize,
    DidOpen,
    DidChange,
    Hover,
    Other,
}

/// A message from the client, by its method.
#[derive(Debug)]
pub enum Request {
    Initialize(InitializeRequest),
    DidOpen(DidOpenTextDocumentNotification),
    DidChange(TextDocumentDidChangeNotification),
    Hover(HoverRequest),
    /// A method that the server does not know: it is acknowledged and nothing
    /// happens.
    Other(Notification),
}

/// An answer to the client.
#[derive(Debug)]
pub enum Response {
    Initialize(InitializeResponse),
    Hover(HoverResponse),
}

/// The method that a method name stands for.
pub open spec fn method_of(name: Seq<char>) -> Method {
    if name == "initialize"@ {
        Method::Initialize
    } else if name == "textDocument/didOpen"@ {
        Method::DidOpen
    } else if name == "textDocument/didChange"@ {
        Method::DidChange
    } else if name == "textDocument/hover"@ {
        Method::Hover
    } else {
        Method::Other
    }
}

/// Reads a method name.
pub fn method_kind(method: &str) -> (res: Method)
    ensures
        res == method_of(method@),
{
    let name = String::from_str(method);
    if name == String::from_str("initialize") {
        Method::Initialize
    } else if name == String::from_str("textDocument/didOpen") {
        Method::DidOpen
    } else if name == String::from_str("textDocument/didChange") {
        Method::DidChange
    } else if name == String::from_str("textDocument/hover") {
        Method::Hover
    } else {
        Method::Other
    }
}

/// True when `r` answers request `id` with the server's fixed capabilities,
/// whole-document sync and hover, and the given name and version.
pub open spec fn is_initialize_response(
    r: InitializeResponse,
    id: i64,
    name: Seq<char>,
    version: Seq<char>,
) -> bool {
    &&& r.response.id == id
    &&& r.response.message.jsonrpc@ == "2.0"@
    &&& r.result.capabilities.text_document_sync == 1
    &&& r.result.capabilities.hover_provider
    &&& r.result.server_info.name@ == name
    &&& r.result.server_info.version@ == version
}

/// True when `r` answers request `id` with `contents`.
pub open spec fn is_hover_response(r: HoverResponse, id: i64, contents: Seq<char>) -> bool {
    &&& r.response.id == id
    &&& r.response.message.jsonrpc@ == "2.0"@
    &&& r.result.contents@ == contents
}

impl InitializeResponse {
    /// The answer to the initialize request `id`.
    pub fn new(id: i64, name: String, version: String) -> (res: InitializeResponse)
        ensures
            is_initialize_response(res, id, name@, version@),
    {
        InitializeResponse {
            response: ResponseMessage { id, message: Message { jsonrpc: String::from_str("2.0") } },
            result: InitializeResult {
                capabilities: ServerCapabilities {
                    text_document_sync: TextDocumentSyncKind::FULL,
                    hover_provider: true,
                },
                server_info: Info { name, version },
            },
        }
    }
}

impl HoverResponse {
    /// The answer to the hover request `id`.
    pub fn new(id: i64, response_str: String) -> (res: Self)
        ensures
            is_hover_response(res, id, response_str@),
    {
        HoverResponse {
            response: ResponseMessage { id, message: Message { jsonrpc: String::from_str("2.0") } },
            result: HoverResult { contents: response_str },
        }
    }
}

/// The node that a position points at: the first node of depth `line` is at
/// `2^line - 1`, and every second offset of the line holds a node. A position
/// that no document can hold, a negative one or one beyond the machine word,
/// counts as the largest index.
pub open spec fn hover_index(line: i32, character: i32) -> int {
    if line < 0 || character < 0 || pow2(line as nat) - 1 + character / 2 > usize::MAX {
        usize::MAX as int
    } else {
        pow2(line as nat) - 1 + character / 2
    }
}

/// The parent index that is reported for a node without a parent; for the
/// root it is what the subtraction gives in the machine word.
pub open spec fn missing_parent(index: int) -> nat {
    if index <= 0 {
        (usize::MAX / 2) as nat
    } else {
        ((index - 1) / 2) as nat
    }
}

/// What a hover at a position of `doc` shows. At an odd offset, where a
/// separator stands, it is the length of the document's text; at an even
/// offset the label of the node's parent, or a note that there is none.
pub open spec fn hover_text(doc: Document, line: i32, character: i32) -> Seq<char> {
    if character % 2 != 0 {
        "Character count: "@ + ascii_chars(decimal(doc.char_count))
    } else {
        let index = hover_index(line, character);
        match parent_of(doc.nodes, index) {
            Some(label) => "Parent: "@ + label,
            None => "Could not find parent to "@ + ascii_chars(decimal(index as nat)) + " "@
                + ascii_chars(decimal(missing_parent(index))),
        }
    }
}

fn node_index(line: i32, character: i32) -> (res: usize)
    ensures
        res == hover_index(line, character),
{
    if line < 0 || character < 0 {
        return usize::MAX;
    }
    let mut base: usize = 0;
    let mut depth: i32 = 0;
    proof {
        lemma2_to64();
    }
    while depth < line
        invariant
            0 <= depth <= line,
            base == pow2(depth as nat) - 1,
        decreases line - depth,
    {
        proof {
            lemma_pow2_unfold((depth + 1) as nat);
        }
        if base > (usize::MAX - 1) / 2 {
            proof {
                if depth + 1 < line {
                    lemma_pow2_strictly_increases((depth + 1) as nat, line as nat);
                }
            }
            return usize::MAX;
        }
        base = 2 * base + 1;
        depth = depth + 1;
    }
    let offset: usize = (character / 2) as usize;
    if offset > usize::MAX - base {
        usize::MAX
    } else {
        base + offset
    }
}

/// The text that a hover at the given position of `fs` shows.
pub fn hover_contents(fs: &FileState, line: i32, character: i32) -> (res: String)
    ensures
        res@ == hover_text(fs@, line, character),
        character % 2 != 0 ==> res@ == "Character count: "@ + ascii_chars(
            decimal(fs@.char_count),
        ),
{
    if character % 2 != 0 {
        let mut out = String::from_str("Character count: ");
        push_decimal(&mut out, fs.get_char_count());
        out
    } else {
        let index = node_index(line, character);
        match fs.parent(index) {
            Some(label) => {
                let mut out = String::from_str("Parent: ");
                out.append(label.as_str());
                out
            },
            None => {
                let parent: usize = if index == 0 {
                    usize::MAX / 2
                } else {
                    (index - 1) / 2
                };
                let mut out = String::from_str("Could not find parent to ");
                push_decimal(&mut out, index);
                out.append(" ");
                push_decimal(&mut out, parent);
                out
            },
        }
    }
}

/// The texts of the changes, in order.
pub open spec fn change_texts(changes: Seq<TextDocumentContentChangeEvent>) -> Seq<Seq<char>> {
    Seq::new(changes.len(), |i: int| changes[i].text@)
}

/// What the files hold after each of `changes` in turn was sent as the whole
/// content of `uri`: every valid one replaces the document, so the last valid
/// one stays.
pub open spec fn apply_changes(
    files: Map<Seq<char>, Document>,
    uri: Seq<char>,
    changes: Seq<Seq<char>>,
) -> Map<Seq<char>, Document>
    decreases changes.len(),
{
    if changes.len() == 0 {
        files
    } else {
        open_document(apply_changes(files, uri, changes.drop_last()), uri, changes.last())
    }
}

/// What the files hold after a message.
pub open spec fn files_after(files: Map<Seq<char>, Document>, message: Request) -> Map<
    Seq<char>,
    Document,
> {
    match message {
        Request::DidOpen(n) => open_document(
            files,
            n.params.text_document.uri@,
            n.params.text_document.text@,
        ),
        Request::DidChange(n) => apply_changes(
            files,
            n.params.text_document.uri@,
            change_texts(n.params.content_changes@),
        ),
        _ => files,
    }
}

/// True when `res` is what the server owes for `message` with `files` open:
/// an answer to a request, nothing to a notification or to a method that it
/// does not know, and an error to a hover in a document that is not open.
pub open spec fn answers(
    files: Map<Seq<char>, Document>,
    message: Request,
    res: Result<Option<Response>, MsgParseError>,
) -> bool {
    match message {
        Request::Initialize(req) => res matches Ok(Some(Response::Initialize(r)))
            && is_initialize_response(r, req.request.id, "LSP-Server"@, "0"@),
        Request::Hover(req) => {
            let uri = req.params.pos_params.text_document.uri@;
            let position = req.params.pos_params.position;
            if files.contains_key(uri) {
                res matches Ok(Some(Response::Hover(r))) && is_hover_response(
                    r,
                    req.request.id,
                    hover_text(files[uri], position.line, position.character),
                )
            } else {
                res matches Err(e) && e.0@ == "document not found"@
            }
        },
        _ => res matches Ok(None),
    }
}

/// Handles one message: answers an initialize request with the server's
/// capabilities, takes the text of a document that was opened or changed,
/// answers a hover request from the open document, and ignores any other
/// method.
pub fn handle_message(message: Request, editor_state: &mut EditorState) -> (res: Result<
    Option<Response>,
    MsgParseError,
>)
    ensures
        final(editor_state)@ == files_after(old(editor_state)@, message),
        answers(old(editor_state)@, message, res),
{
    match message {
        Request::Initialize(req) => {
            let response = InitializeResponse::new(
                req.request.id,
                String::from_str("LSP-Server"),
                String::from_str("0"),
            );
            Ok(Some(Response::Initialize(response)))
        },
        Request::DidOpen(n) => {
            let item = n.params.text_document;
            editor_state.modify_file(item.uri, item.text);
            Ok(None)
        },
        Request::DidChange(n) => {
            let uri = n.params.text_document.uri;
            let changes = n.params.content_changes;
            let ghost texts = change_texts(changes@);
            let mut i: usize = 0;
            proof {
                assert(texts.take(0) =~= Seq::<Seq<char>>::empty());
            }
            while i < changes.len()
                invariant
                    i <= changes.len(),
                    texts == change_texts(changes@),
                    editor_state@ == apply_changes(old(editor_state)@, uri@, texts.take(i as int)),
                decreases changes.len() - i,
            {
                proof {
                    assert(texts.take(i + 1).drop_last() =~= texts.take(i as int));
                    assert(texts.take(i + 1).last() == changes@[i as int].text@);
                }
                editor_state.modify_file(uri.clone(), changes[i].text.clone());
                i = i + 1;
            }
            proof {
                assert(texts.take(i as int) =~= texts);
            }
            Ok(None)
        },
        Request::Hover(req) => {
            let id = req.request.id;
            let params = req.params.pos_params;
            match editor_state.get_file_state(params.text_document.uri) {
                None => Err(MsgParseError(String::from_str("document not found"))),
                Some(fs) => {
                    let contents = hover_contents(fs, params.position.line, params.position.character);
                    Ok(Some(Response::Hover(HoverResponse::new(id, contents))))
                },
            }
        },
        Request::Other(_) => Ok(None),
    }
}

/// What a failure to read a message of the given method is reported as: the
/// reader's own words for a message whose method could not be read, and
/// behind a note of the schema for the others.
pub open spec fn failure_text(method: Method, detail: Seq<char>) -> Seq<char> {
    match method {
        Method::Initialize => "Could not parse InitializeRequest, error "@ + detail,
        Method::DidOpen => "Could not parse DidOpenNotification, error "@ + detail,
        Method::DidChange => "[Err] Could not parse DidOpenNotification, error "@ + detail,
        Method::Hover => "Could not parse HoverRequest, error "@ + detail,
        Method::Other => detail,
    }
}

/// The error for a message of the given method that does not fit its schema.
pub fn decode_failure(method: Method, detail: &str) -> (res: MsgParseError)
    ensures
        res.0@ == failure_text(method, detail@),
{
    let mut text = match method {
        Method::Initialize => String::from_str("Could not parse InitializeRequest, error "),
        Method::DidOpen => String::from_str("Could not parse DidOpenNotification, error "),
        Method::DidChange => String::from_str("[Err] Could not parse DidOpenNotification, error "),
        Method::Hover => String::from_str("Could not parse HoverRequest, error "),
        Method::Other => String::new(),
    };
    text.append(detail);
    proof {
        assert(Seq::<char>::empty() + detail@ =~= detail@);
    }
    MsgParseError(text)
}

/// Hover at an odd offset: whatever the line, the answer is the length of
/// the document's text.
pub proof fn lemma_hover_odd_offset(doc: Document, line: i32, character: i32)
    requires
        character % 2 != 0,
    ensures
        hover_text(doc, line, character) == "Character count: "@ + ascii_chars(
            decimal(doc.char_count),
        ),
{
}

/// A change notification leaves the document at its last valid change: the
/// changes before it are overwritten, and the invalid ones behind it change
/// nothing.
pub proof fn lemma_changes_converge(
    files: Map<Seq<char>, Document>,
    uri: Seq<char>,
    changes: Seq<Seq<char>>,
    k: int,
)
    requires
        0 <= k < changes.len(),
        valid_tree_text(changes[k]),
        forall|j: int| k < j < changes.len() ==> !valid_tree_text(changes[j]),
    ensures
        apply_changes(files, uri, changes) == apply_changes(files, uri, changes.take(k)).insert(
            uri,
            document_of(changes[k]),
        ),
        apply_changes(files, uri, changes)[uri] == document_of(changes[k]),
    decreases changes.len(),
{
    if k == changes.len() - 1 {
        assert(changes.drop_last() =~= changes.take(k));
    } else {
        lemma_changes_converge(files, uri, changes.drop_last(), k);
        assert(changes.drop_last().take(k) =~= changes.take(k));
    }
}

/// A change notification without a valid change leaves every document as it
/// was.
pub proof fn lemma_invalid_changes_keep_files(
    files: Map<Seq<char>, Document>,
    uri: Seq<char>,
    changes: Seq<Seq<char>>,
)
    requires
        forall|j: int| 0 <= j < changes.len() ==> !valid_tree_text(changes[j]),
    ensures
        apply_changes(files, uri, changes) == files,
    decreases changes.len(),
{
    if changes.len() > 0 {
        lemma_invalid_changes_keep_files(files, uri, changes.drop_last());
    }
}

/// A hover over a node below the root names the label that stands above it
/// in the text: for the node at offset `2k` of the line at depth `d`, the
/// character at offset `2(k / 2)` of the line before.
pub proof fn lemma_hover_names_parent(lines: Seq<Seq<char>>, char_count: nat, d: int, k: int)
    requires
        lines_ok(lines),
        1 <= d < lines.len(),
        0 <= k,
        2 * k < lines[d].len(),
        d <= i32::MAX,
        2 * k <= i32::MAX,
        pow2(d as nat) - 1 + k <= usize::MAX,
    ensures
        2 * (k / 2) < lines[d - 1].len(),
        hover_text(Document { nodes: tree_labels(lines), char_count }, d as i32, (2 * k) as i32)
            == "Parent: "@ + seq![lines[d - 1][2 * (k / 2)]],
{
    lemma_pow2_unfold(d as nat);
    lemma_pow2_unfold((d + 1) as nat);
    lemma_pow2_pos((d - 1) as nat);
    assert(line_ok(lines[d], d as nat, d == lines.len() - 1));
    assert(line_ok(lines[d - 1], (d - 1) as nat, false));
    let index = pow2(d as nat) - 1 + k;
    assert(hover_index(d as i32, (2 * k) as i32) == index);
    assert((index - 1) / 2 == pow2((d - 1) as nat) - 1 + k / 2);
    lemma_label_position(lines, d - 1, k / 2);
}

} // verus!
