use tnnl::log::{
    banner_layout, display_text, banner_pad, banner_width, body_display, BodyDisplay, body_is_blank, clock_label, extract_content_type, find_key_colon, header_rows, id_column,
    json_line, looks_like_json, pad_column, path_column, path_column_in_bounds,
    preview, request_summary, status_color, status_text, value_kind, JsonLine, JsonShape,
    StatusColor, ValueKind, BODY_PREVIEW_LINES,
};

#[test]
fn status_words() {
    assert_eq!(status_text(200), "OK");
    assert_eq!(status_text(201), "Created");
    assert_eq!(status_text(422), "Unprocessable Entity");
    assert_eq!(status_text(503), "Service Unavailable");
    assert_eq!(status_text(418), "");
}

#[test]
fn status_colors() {
    assert_eq!(status_color(204), StatusColor::Green);
    assert_eq!(status_color(302), StatusColor::Cyan);
    assert_eq!(status_color(404), StatusColor::Yellow);
    assert_eq!(status_color(500), StatusColor::Red);
    assert_eq!(status_color(199), StatusColor::Red);
}

#[test]
fn clock_column() {
    assert_eq!(clock_label(0), "00:00");
    assert_eq!(clock_label(5), "00:05");
    assert_eq!(clock_label(74), "01:14");
    assert_eq!(clock_label(6000), "100:00");
}

#[test]
fn key_colons() {
    assert_eq!(find_key_colon("\"name\": 1"), Some(6));
    assert_eq!(find_key_colon("\"a\\\"b\": 1"), Some(6));
    assert_eq!(find_key_colon("\"name\" : 1"), None);
    assert_eq!(find_key_colon("\"unterminated"), None);
    assert_eq!(find_key_colon("\""), None);
}

#[test]
fn content_types() {
    let h = "POST / HTTP/1.1\r\nHost: x\r\ncontent-type:  application/json \r\n\r\n";
    assert_eq!(extract_content_type(h), "application/json");
    assert_eq!(extract_content_type("GET / HTTP/1.1\r\n\r\n"), "");
}

#[test]
fn value_kinds() {
    assert_eq!(value_kind("true"), ValueKind::Boolean);
    assert_eq!(value_kind("false"), ValueKind::Boolean);
    assert_eq!(value_kind("null"), ValueKind::Null);
    assert_eq!(value_kind("{"), ValueKind::Bracket);
    assert_eq!(value_kind("]"), ValueKind::Bracket);
    assert_eq!(value_kind("\"hi\""), ValueKind::Quoted);
    assert_eq!(value_kind("\""), ValueKind::Quoted);
    assert_eq!(value_kind("42"), ValueKind::Number);
    assert_eq!(value_kind("-1.5e3"), ValueKind::Number);
    assert_eq!(value_kind("abc"), ValueKind::Plain);
    assert_eq!(value_kind(""), ValueKind::Plain);
}

#[test]
fn numbers_match_the_float_parser() {
    let samples = [
        "0", "1", "-1", "+1", "1.", ".5", ".", "1.5", "1e5", "1E5", "1e+5", "1e-5", "1e", "e5",
        "1.e3", ".e3", "inf", "-inf", "Infinity", "NaN", "nan", "+nan", "infin", "1_000", "0x10",
        " 1", "1 ", "--1", "1e5.0", "12345678901234567890", "-", "+",
    ];
    for s in samples {
        let expected = s.parse::<f64>().is_ok();
        assert_eq!(value_kind(s) == ValueKind::Number, expected, "sample {s:?}");
    }
}

#[test]
fn json_line_shapes() {
    assert_eq!(json_line("  },"), JsonLine { indent_end: 2, shape: JsonShape::Punct });
    assert_eq!(
        json_line("  \"a\": 1,"),
        JsonLine {
            indent_end: 2,
            shape: JsonShape::Keyed { key_end: 5, value_start: 7, value_end: 8, comma: true },
        }
    );
    assert_eq!(
        json_line("    \"k\": {"),
        JsonLine {
            indent_end: 4,
            shape: JsonShape::Keyed { key_end: 7, value_start: 9, value_end: 10, comma: false },
        }
    );
    assert_eq!(
        json_line("  3,"),
        JsonLine { indent_end: 2, shape: JsonShape::Plain { value_end: 3, comma: true } }
    );
    assert_eq!(json_line(""), JsonLine { indent_end: 0, shape: JsonShape::Plain { value_end: 0, comma: false } });
}

#[test]
fn long_bodies_are_cut() {
    let lines: Vec<String> = (1..=BODY_PREVIEW_LINES + 3).map(|i| format!("line {i}")).collect();
    let text = lines.join("\n");
    let (shown, rest) = preview(&text).unwrap();
    assert_eq!(shown, lines[..BODY_PREVIEW_LINES].join("\n"));
    assert_eq!(rest, 3);
    let short = lines[..BODY_PREVIEW_LINES].join("\n");
    assert!(preview(&short).is_none());
}

#[test]
fn preview_counts_lines_like_str_lines() {
    let mut text = "a\r\n".repeat(BODY_PREVIEW_LINES + 1);
    text.push('\n');
    assert_eq!(text.lines().count(), BODY_PREVIEW_LINES + 2);
    let (shown, rest) = preview(&text).unwrap();
    assert_eq!(rest, 2);
    assert_eq!(shown, vec!["a"; BODY_PREVIEW_LINES].join("\n"));
}

#[test]
fn blank_and_json_bodies() {
    assert!(body_is_blank(" \n\t "));
    assert!(!body_is_blank(" x "));
    assert!(looks_like_json("application/json; charset=utf-8", "oops"));
    assert!(looks_like_json("text/plain", "  [1, 2]"));
    assert!(!looks_like_json("text/plain", "hello"));
    assert!(!looks_like_json("", "   "));
}

#[test]
fn log_columns() {
    assert_eq!(pad_column("GET", 6), "GET   ");
    assert_eq!(pad_column("OPTIONS", 6), "OPTIONS");
    assert_eq!(path_column("/api"), format!("{:<26}", "/api"));
    let long = "/a/very/long/path/that/goes/on";
    assert!(path_column_in_bounds(long));
    assert_eq!(path_column(long), format!("{}…", &long[..25]));
    assert_eq!(id_column(3), "#3  ");
    assert_eq!(id_column(1234), "#1234");
    let cut = format!("{}é/rest/of/it", "/".repeat(24));
    assert!(!path_column_in_bounds(&cut));
}

#[test]
fn request_header_rows() {
    let raw = "POST /hook HTTP/1.1\r\nHost: x\r\nAccept-Encoding: gzip\r\n  X-Sig : t=1 \r\nnocolon\r\nConnection: close\r\n\r\n";
    let rows = header_rows(raw, true);
    let got: Vec<(String, String)> = rows.into_iter().map(|r| (r.name, r.value)).collect();
    assert_eq!(got, vec![("Host".to_string(), "x".to_string()), ("X-Sig ".to_string(), "t=1".to_string())]);
}

#[test]
fn response_header_rows() {
    let raw = "HTTP/1.1 201 Created\r\nServer: s\r\nDate: d\r\nContent-Type: application/json\r\nTransfer-Encoding: chunked\r\n\r\n";
    let rows = header_rows(raw, false);
    let got: Vec<(String, String)> = rows.into_iter().map(|r| (r.name, r.value)).collect();
    assert_eq!(got, vec![("Content-Type".to_string(), "application/json".to_string())]);
}

#[test]
fn inspected_request_summary() {
    assert_eq!(request_summary("POST /api/webhooks HTTP/1.1\r\nHost: x\r\n\r\n"), ("POST".to_string(), "/api/webhooks".to_string()));
    assert_eq!(request_summary("GARBAGE\r\n"), ("GARBAGE".to_string(), "/".to_string()));
    assert_eq!(request_summary(""), (String::new(), "/".to_string()));
}

#[test]
fn inspected_body_display() {
    let json_headers = "HTTP/1.1 200 OK\r\nContent-Type: application/json\r\n\r\n";
    let text_headers = "HTTP/1.1 200 OK\r\nContent-Type: text/plain\r\n\r\n";
    assert!(matches!(body_display(json_headers, "  \n "), BodyDisplay::Blank));
    assert!(matches!(body_display(json_headers, "{\"a\":1}"), BodyDisplay::Json(p) if p == "{\n  \"a\": 1\n}"));
    assert!(matches!(body_display(json_headers, "not json"), BodyDisplay::Raw));
    assert!(matches!(body_display(text_headers, "[1]"), BodyDisplay::Json(p) if p == "[\n  1\n]"));
    assert!(matches!(body_display(text_headers, "plain"), BodyDisplay::Raw));
    assert!(matches!(
        body_display(json_headers, "{\"b\":1,\"a\":[true,null]}"),
        BodyDisplay::Json(p) if p == "{\n  \"a\": [\n    true,\n    null\n  ],\n  \"b\": 1\n}"
    ));
    assert!(matches!(body_display(json_headers, "{oops"), BodyDisplay::Raw));
}

#[test]
fn banner_width_and_pad() {
    assert_eq!(banner_width(10, 12, None), 40);
    assert_eq!(banner_width(50, 12, None), 54);
    assert_eq!(banner_width(10, 12, Some(60)), 64);
    assert_eq!(banner_pad(40, 20), 16);
    assert_eq!(banner_pad(40, 38), 0);
}

#[test]
fn banner_layout_measures_rows() {
    let l = banner_layout("abc.tnnl.run", "localhost", 3000, false).unwrap();
    assert_eq!(l.width, 40);
    // "➜  abc.tnnl.run" is 15 columns, "↳  localhost:3000" is 17.
    assert_eq!(l.pads, vec![21, 19]);
    let long = "a".repeat(50);
    let l = banner_layout(&long, "localhost", 8080, true).unwrap();
    assert_eq!(l.width, 57);
    assert_eq!(l.pads, vec![0, 36, 41]);
}

#[test]
fn inspected_bytes_as_text() {
    assert_eq!(display_text(b"ok"), "ok");
    assert_eq!(display_text(b"a\xffb"), "a\u{fffd}b");
}
