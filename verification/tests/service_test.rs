use video_editor::editor::{EditorState, ExportEvent, FrameOutcome};
use video_editor::mcp::{
    builtin_tools, McpError, McpReply, McpServer, RequestFields, ToolDefinition, ToolReply,
    METHOD_NOT_FOUND, UNKNOWN_TOOL,
};
use video_editor::render::{RenderContext, RenderError, YUV_TO_RGB_SHADER};
use video_editor::store::{chrono_now, current_timestamp, seconds_text};

#[test]
fn mcp_answers_known_methods() {
    let server = McpServer::new();
    assert!(server.tools.is_empty());
    assert!(builtin_tools().is_empty());
    assert!(matches!(server.reply("ping", ""), McpReply::Pong));
    assert!(matches!(server.reply("tools/list", "ping"), McpReply::ToolList));
    assert!(matches!(server.reply("tools/call", "ping"), McpReply::Tool(ToolReply::Pong)));
}

#[test]
fn mcp_reports_unknown_methods_and_tools() {
    let server = McpServer::default();
    match server.reply("resources/list", "") {
        McpReply::MethodNotFound(m) => assert_eq!(m, "Method not found: resources/list"),
        other => panic!("unexpected {:?}", other),
    }
    match server.reply("tools/call", "cut") {
        McpReply::Tool(ToolReply::UnknownTool(m)) => assert_eq!(m, "Unknown tool: cut"),
        other => panic!("unexpected {:?}", other),
    }
    match server.reply("", "") {
        McpReply::MethodNotFound(m) => assert_eq!(m, "Method not found: "),
        other => panic!("unexpected {:?}", other),
    }
    assert_eq!(METHOD_NOT_FOUND, -32601);
    assert_eq!(UNKNOWN_TOOL, -32602);
}

#[test]
fn mcp_handle_request_answers_ping_with_the_id() {
    let server = McpServer::new();
    let r = server.handle_request(r#"{"jsonrpc":"2.0","method":"ping","id":1}"#).unwrap();
    assert_eq!(r, r#"{"id":1,"jsonrpc":"2.0","result":"pong"}"#);
    let r = server.handle_request(r#"{"method":"ping","id":"a-7"}"#).unwrap();
    assert_eq!(r, r#"{"id":"a-7","jsonrpc":"2.0","result":"pong"}"#);
}

#[test]
fn mcp_handle_request_without_id_answers_null() {
    let server = McpServer::new();
    let r = server.handle_request(r#"{"method":"ping"}"#).unwrap();
    assert_eq!(r, r#"{"id":null,"jsonrpc":"2.0","result":"pong"}"#);
}

#[test]
fn mcp_handle_request_lists_tools() {
    let server = McpServer::new();
    let r = server.handle_request(r#"{"method":"tools/list","id":2}"#).unwrap();
    assert_eq!(r, r#"{"id":2,"jsonrpc":"2.0","result":{"tools":[]}}"#);
    let server = McpServer {
        tools: vec![
            ToolDefinition { name: "timeline.add_clip".to_string(), description: "Add \"a\" clip".to_string() },
            ToolDefinition { name: "timeline.cut".to_string(), description: "Cut".to_string() },
        ],
    };
    let r = server.handle_request(r#"{"method":"tools/list","id":3}"#).unwrap();
    assert_eq!(
        r,
        r#"{"id":3,"jsonrpc":"2.0","result":{"tools":[{"description":"Add \"a\" clip","name":"timeline.add_clip"},{"description":"Cut","name":"timeline.cut"}]}}"#
    );
}

#[test]
fn mcp_handle_request_calls_tools() {
    let server = McpServer::new();
    let r = server
        .handle_request(r#"{"method":"tools/call","params":{"name":"ping"},"id":4}"#)
        .unwrap();
    assert_eq!(r, r#"{"id":4,"jsonrpc":"2.0","result":"pong"}"#);
    let r = server
        .handle_request(r#"{"method":"tools/call","params":{"name":"cut\"x"},"id":5}"#)
        .unwrap();
    assert_eq!(
        r,
        r#"{"error":{"code":-32602,"message":"Unknown tool: cut\"x"},"id":5,"jsonrpc":"2.0"}"#
    );
    let r = server.handle_request(r#"{"method":"tools/call","id":6}"#).unwrap();
    assert_eq!(r, r#"{"error":{"code":-32602,"message":"Unknown tool: "},"id":6,"jsonrpc":"2.0"}"#);
}

#[test]
fn mcp_handle_request_reports_unknown_methods() {
    let server = McpServer::new();
    let r = server.handle_request(r#"{"method":"resources/list","id":[1,2]}"#).unwrap();
    assert_eq!(
        r,
        r#"{"error":{"code":-32601,"message":"Method not found: resources/list"},"id":[1,2],"jsonrpc":"2.0"}"#
    );
    let r = server.handle_request(r#"{"method":7,"id":8}"#).unwrap();
    assert_eq!(r, r#"{"error":{"code":-32601,"message":"Method not found: "},"id":8,"jsonrpc":"2.0"}"#);
}

#[test]
fn mcp_handle_request_rejects_text_that_is_not_json() {
    let server = McpServer::new();
    assert!(matches!(server.handle_request("not json"), Err(McpError::Protocol(_))));
    assert!(matches!(server.handle_request(""), Err(McpError::Protocol(_))));
}

#[test]
fn render_context_reports_no_gpu() {
    assert!(matches!(RenderContext::new(), Err(RenderError::NoGpu)));
    assert!(YUV_TO_RGB_SHADER.contains("fs_main"));
}

#[test]
fn timestamps_are_decimal_seconds() {
    let t = chrono_now();
    assert!(!t.is_empty() && t.chars().all(|c| c.is_ascii_digit()));
    let u = current_timestamp();
    assert!(u.parse::<u64>().unwrap() >= t.parse::<u64>().unwrap());
    assert!(u.parse::<u64>().unwrap() > 1_600_000_000);
}

#[test]
fn editor_starts_with_all_panels_and_nothing_open() {
    let s = EditorState::new();
    assert!(s.project.is_none());
    assert!(s.show_timeline && s.show_media_browser && s.show_preview);
    assert!(!s.is_playing && !s.is_exporting);
    assert!(!s.can_export());
}

#[test]
fn editor_export_events() {
    let mut s = EditorState::new();
    s.new_project("Untitled");
    assert_eq!(s.project.as_ref().unwrap().name, "Untitled");
    assert!(s.can_export());
    s.export_started();
    assert!(!s.can_export());
    s.export_event(ExportEvent::Progress(3, 10));
    assert_eq!(s.export_progress, (3, 10));
    assert!(s.export_listening);
    s.export_event(ExportEvent::Error("disk full".into()));
    assert!(!s.is_exporting && !s.export_listening);
    assert_eq!(s.export_progress, (0, 0));
    assert_eq!(s.export_error.as_deref(), Some("disk full"));
    s.export_started();
    s.export_event(ExportEvent::Done);
    assert!(!s.is_exporting);
    assert_eq!(s.export_error, None);
}

#[test]
fn editor_playback() {
    let mut s = EditorState::new();
    s.media_loaded("/a.mp4", Ok(5_000_000));
    assert_eq!(s.media_path, "/a.mp4");
    assert_eq!(s.duration, 5_000_000);
    assert!(s.toggle_play());
    assert!(!s.frame_decoded(FrameOutcome::Frame(40_000)));
    assert_eq!(s.current_time, 40_000);
    assert!(!s.toggle_play());
    assert!(!s.toggle_play());
    assert!(s.frame_decoded(FrameOutcome::End));
    assert!(!s.is_playing && !s.has_frame);
    assert_eq!(s.current_time, 0);
    s.seeked(Some(1_000_000));
    assert_eq!(s.current_time, 1_000_000);
    assert!(!s.slider_seeks(1_100_000));
    assert!(s.slider_seeks(1_100_001));
    assert!(s.slider_seeks(0));
    s.media_loaded("/missing.mp4", Err("File not found: /missing.mp4".into()));
    assert_eq!(s.media_path, "/a.mp4");
    assert!(!s.has_media);
    assert_eq!(s.load_error.as_deref(), Some("File not found: /missing.mp4"));
}

#[test]
fn mcp_protocol_errors_carry_the_parse_message() {
    let server = McpServer::new();
    let expected = serde_json::from_str::<serde_json::Value>("not json").unwrap_err().to_string();
    match server.handle_request("not json") {
        Err(McpError::Protocol(m)) => {
            assert_eq!(m, expected);
            assert!(!m.is_empty());
        }
        other => panic!("unexpected {:?}", other),
    }
}

#[test]
fn mcp_respond_writes_the_reply_for_the_fields() {
    let server = McpServer::new();
    let fields = RequestFields {
        method: Some("tools/call".to_string()),
        tool_name: Some("a\u{1}\n\\".to_string()),
        id: Some("\"x\"".to_string()),
    };
    assert_eq!(
        server.respond(&fields),
        r#"{"error":{"code":-32602,"message":"Unknown tool: a\u0001\n\\"},"id":"x","jsonrpc":"2.0"}"#
    );
    let none = RequestFields { method: None, tool_name: None, id: None };
    assert_eq!(
        server.respond(&none),
        r#"{"error":{"code":-32601,"message":"Method not found: "},"id":null,"jsonrpc":"2.0"}"#
    );
}

#[test]
fn time_stamps_are_decimal_seconds() {
    assert_eq!(seconds_text(None), "0");
    assert_eq!(seconds_text(Some(0)), "0");
    assert_eq!(seconds_text(Some(1_700_000_000)), "1700000000");
    assert_eq!(seconds_text(Some(u64::MAX)), "18446744073709551615");
}
