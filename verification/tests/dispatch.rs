use server::editor::{EditorState, FileState};
use server::lsp::{
    decode_failure, handle_message, hover_contents, method_kind, DidChangeTextDocumentParams,
    DidOpenTextDocumentNotification, DidOpenTextDocumentParams, HoverParams, HoverRequest,
    HoverResponse, Info, InitializeParams, InitializeRequest, InitializeResponse, Message, Method,
    Notification, Position, Request, RequestMessage, Response, TextDocumentContentChangeEvent,
    TextDocumentDidChangeNotification, TextDocumentIdentifier, TextDocumentItem,
    TextDocumentPositionParams, TextDocumentSyncKind, VersionTextDocumentIdentifier,
};

fn notification(method: &str) -> Notification {
    Notification { message: Message { jsonrpc: "2.0".to_string() }, method: method.to_string() }
}

fn open(uri: &str, text: &str) -> Request {
    Request::DidOpen(DidOpenTextDocumentNotification {
        notification: notification("textDocument/didOpen"),
        params: DidOpenTextDocumentParams {
            text_document: TextDocumentItem {
                uri: uri.to_string(),
                language_id: "tree".to_string(),
                version: 0,
                text: text.to_string(),
            },
        },
    })
}

fn change(uri: &str, texts: &[&str]) -> Request {
    Request::DidChange(TextDocumentDidChangeNotification {
        notification: notification("textDocument/didChange"),
        params: DidChangeTextDocumentParams {
            text_document: VersionTextDocumentIdentifier { uri: uri.to_string(), version: 1 },
            content_changes: texts
                .iter()
                .map(|t| TextDocumentContentChangeEvent { text: t.to_string() })
                .collect(),
        },
    })
}

fn hover(id: i64, uri: &str, line: i32, character: i32) -> Request {
    Request::Hover(HoverRequest {
        request: RequestMessage { base_message: notification("textDocument/hover"), id },
        params: HoverParams {
            pos_params: TextDocumentPositionParams {
                text_document: TextDocumentIdentifier { uri: uri.to_string() },
                position: Position { line, character },
            },
        },
    })
}

fn hover_answer(editor: &mut EditorState, id: i64, uri: &str, line: i32, character: i32) -> String {
    match handle_message(hover(id, uri, line, character), editor) {
        Ok(Some(Response::Hover(r))) => {
            assert_eq!(r.response.id, id);
            assert_eq!(r.response.message.jsonrpc, "2.0");
            r.result.contents
        }
        other => panic!("expected a hover answer, got {:?}", other),
    }
}

fn labels(editor: &EditorState, uri: &str) -> Vec<String> {
    let fs = editor.get_file_state(uri.to_string()).unwrap();
    let mut out = Vec::new();
    let mut i: usize = 0;
    while let Some(label) = fs.get(i) {
        out.push(label.clone());
        i += 1;
    }
    out
}

#[test]
fn method_names() {
    assert_eq!(method_kind("initialize"), Method::Initialize);
    assert_eq!(method_kind("textDocument/didOpen"), Method::DidOpen);
    assert_eq!(method_kind("textDocument/didChange"), Method::DidChange);
    assert_eq!(method_kind("textDocument/hover"), Method::Hover);
    assert_eq!(method_kind("initialized"), Method::Other);
    assert_eq!(method_kind("Initialize"), Method::Other);
    assert_eq!(method_kind(""), Method::Other);
}

#[test]
fn initialize_is_answered_with_capabilities() {
    let mut editor = EditorState::new();
    let request = Request::Initialize(InitializeRequest {
        request: RequestMessage { base_message: notification("initialize"), id: 41 },
        params: InitializeParams {
            process_id: 7,
            client_info: Some(Info { name: "editor".to_string(), version: "1".to_string() }),
        },
    });
    match handle_message(request, &mut editor) {
        Ok(Some(Response::Initialize(r))) => {
            assert_eq!(r.response.id, 41);
            assert_eq!(r.response.message.jsonrpc, "2.0");
            assert_eq!(r.result.capabilities.text_document_sync, 1);
            assert!(r.result.capabilities.hover_provider);
            assert_eq!(r.result.server_info.name, "LSP-Server");
            assert_eq!(r.result.server_info.version, "0");
        }
        other => panic!("expected an initialize answer, got {:?}", other),
    }
}

#[test]
fn response_constructors() {
    let r = InitializeResponse::new(-3, "name".to_string(), "9.1".to_string());
    assert_eq!(r.response.id, -3);
    assert_eq!(r.response.message.jsonrpc, "2.0");
    assert_eq!(r.result.capabilities.text_document_sync, TextDocumentSyncKind::FULL);
    assert_eq!(TextDocumentSyncKind::FULL, 1);
    assert!(r.result.capabilities.hover_provider);
    assert_eq!(r.result.server_info.name, "name");
    assert_eq!(r.result.server_info.version, "9.1");
    let h = HoverResponse::new(i64::MAX, "text".to_string());
    assert_eq!(h.response.id, i64::MAX);
    assert_eq!(h.response.message.jsonrpc, "2.0");
    assert_eq!(h.result.contents, "text");
}

#[test]
fn open_and_hover() {
    let mut editor = EditorState::new();
    assert!(matches!(handle_message(open("file:///t", "A\nB C\nD"), &mut editor), Ok(None)));
    assert_eq!(labels(&editor, "file:///t"), vec!["A", "B", "C", "D"]);
    assert_eq!(hover_answer(&mut editor, 1, "file:///t", 1, 0), "Parent: A");
    assert_eq!(hover_answer(&mut editor, 2, "file:///t", 1, 2), "Parent: A");
    assert_eq!(hover_answer(&mut editor, 3, "file:///t", 2, 0), "Parent: B");
    assert_eq!(hover_answer(&mut editor, 4, "file:///t", 2, 4), "Parent: C");
    assert_eq!(hover_answer(&mut editor, 5, "file:///t", 3, 0), "Parent: D");
    assert_eq!(hover_answer(&mut editor, 6, "file:///t", 3, 4), "Could not find parent to 9 4");
    assert_eq!(hover_answer(&mut editor, 7, "file:///t", 4, 0), "Could not find parent to 15 7");
    assert_eq!(hover_answer(&mut editor, 8, "file:///t", 10, 20), "Could not find parent to 1033 516");
}

#[test]
fn hover_at_the_root() {
    let mut editor = EditorState::new();
    assert!(matches!(handle_message(open("u", "A"), &mut editor), Ok(None)));
    assert_eq!(
        hover_answer(&mut editor, 1, "u", 0, 0),
        format!("Could not find parent to 0 {}", usize::MAX / 2)
    );
}

#[test]
fn hover_beyond_the_machine_word() {
    let mut editor = EditorState::new();
    assert!(matches!(handle_message(open("u", "A"), &mut editor), Ok(None)));
    let beyond = format!("Could not find parent to {} {}", usize::MAX, (usize::MAX - 1) / 2);
    assert_eq!(hover_answer(&mut editor, 1, "u", 64, 0), beyond);
    assert_eq!(hover_answer(&mut editor, 1, "u", 200, 0), beyond);
    assert_eq!(hover_answer(&mut editor, 1, "u", i32::MAX, 0), beyond);
    assert_eq!(hover_answer(&mut editor, 1, "u", 64, 2), beyond);
    assert_eq!(hover_answer(&mut editor, 1, "u", -1, 0), beyond);
    assert_eq!(hover_answer(&mut editor, 1, "u", 0, -2), beyond);
    if usize::BITS == 64 {
        assert_eq!(
            hover_answer(&mut editor, 1, "u", 63, 0),
            "Could not find parent to 9223372036854775807 4611686018427387903"
        );
    }
}

#[test]
fn hover_at_odd_offset_gives_character_count() {
    let mut editor = EditorState::new();
    assert!(matches!(handle_message(open("u", "A\nB C\nD"), &mut editor), Ok(None)));
    for line in [0, 1, 2, 3, 63, 64, 1000, i32::MAX, -1, i32::MIN] {
        for character in [1, 3, 5, 99, i32::MAX, -1, -3] {
            assert_eq!(hover_answer(&mut editor, 9, "u", line, character), "Character count: 7");
        }
    }
    let fs = FileState::new("A\nB C\nD E F G\nH I J".to_string()).unwrap();
    assert_eq!(hover_contents(&fs, 0, 1), "Character count: 19");
    assert_eq!(hover_contents(&fs, 3, 2), "Parent: D");
    let empty = FileState::new(String::new()).unwrap();
    assert_eq!(hover_contents(&empty, 0, 1), "Character count: 0");
}

#[test]
fn hover_without_document_fails() {
    let mut editor = EditorState::new();
    match handle_message(hover(1, "missing", 0, 0), &mut editor) {
        Err(e) => assert_eq!(e.to_string(), "document not found"),
        other => panic!("expected an error, got {:?}", other),
    }
    assert!(matches!(handle_message(open("u", "A\nB  C"), &mut editor), Ok(None)));
    assert!(handle_message(hover(1, "u", 0, 1), &mut editor).is_err());
}

#[test]
fn invalid_replacement_keeps_the_document() {
    let mut editor = EditorState::new();
    assert!(matches!(handle_message(open("u", "A\nB C\nD"), &mut editor), Ok(None)));
    assert!(matches!(handle_message(open("u", "A\nB  C\nD"), &mut editor), Ok(None)));
    assert_eq!(labels(&editor, "u"), vec!["A", "B", "C", "D"]);
    assert!(matches!(handle_message(change("u", &["A\nBxC"]), &mut editor), Ok(None)));
    assert_eq!(labels(&editor, "u"), vec!["A", "B", "C", "D"]);
    assert_eq!(hover_answer(&mut editor, 1, "u", 0, 1), "Character count: 7");
}

#[test]
fn changes_converge_to_the_last_valid_one() {
    let mut editor = EditorState::new();
    assert!(matches!(handle_message(change("u", &["A", "X\nY Z", "bad text", "Q\nR", "AB"]), &mut editor), Ok(None)));
    assert_eq!(labels(&editor, "u"), vec!["Q", "R"]);
    assert!(matches!(handle_message(change("u", &[]), &mut editor), Ok(None)));
    assert_eq!(labels(&editor, "u"), vec!["Q", "R"]);
    assert!(matches!(handle_message(change("v", &["no", "nope"]), &mut editor), Ok(None)));
    assert!(editor.get_file_state("v".to_string()).is_none());
}

#[test]
fn unknown_method_changes_nothing() {
    let mut editor = EditorState::new();
    assert!(matches!(handle_message(open("u", "A"), &mut editor), Ok(None)));
    assert!(matches!(handle_message(Request::Other(notification("initialized")), &mut editor), Ok(None)));
    assert_eq!(labels(&editor, "u"), vec!["A"]);
}

#[test]
fn decode_failures_name_the_schema() {
    assert_eq!(decode_failure(Method::Initialize, "x").0, "Could not parse InitializeRequest, error x");
    assert_eq!(decode_failure(Method::DidOpen, "x").0, "Could not parse DidOpenNotification, error x");
    assert_eq!(decode_failure(Method::DidChange, "x").0, "[Err] Could not parse DidOpenNotification, error x");
    assert_eq!(decode_failure(Method::Hover, "x").0, "Could not parse HoverRequest, error x");
    assert_eq!(decode_failure(Method::Other, "missing field `method`").0, "missing field `method`");
}
