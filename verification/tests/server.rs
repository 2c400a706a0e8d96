use gol_rs::server::{
    faster_delay, http_response, parse_command, parse_header_line, parse_request_line, route,
    seed_pattern_name, slower_delay, Command, HeaderLine, Route, SeedChoice,
};

#[test]
fn request_line_and_routes() {
    assert_eq!(
        parse_request_line("GET /api/state?x=1 HTTP/1.1\r\n"),
        ("GET".to_string(), "/api/state?x=1".to_string())
    );
    assert_eq!(parse_request_line("   "), (String::new(), "/".to_string()));
    assert_eq!(route("GET", "/api/state?x=1"), Route::State);
    assert_eq!(route("GET", "/"), Route::Index);
    assert_eq!(route("GET", "/ws"), Route::WebSocket);
    assert_eq!(route("GET", "/healthz"), Route::Healthz);
    assert_eq!(route("POST", "/"), Route::NotFound);
    assert_eq!(route("GET", "/nope"), Route::NotFound);
}

#[test]
fn header_lines() {
    match parse_header_line("Sec-WebSocket-Key:  abc== \r\n") {
        HeaderLine::Field(k, v) => {
            assert_eq!(k, "sec-websocket-key");
            assert_eq!(v, "abc==");
        }
        _ => panic!("expected a field"),
    }
    assert!(matches!(parse_header_line("\r\n"), HeaderLine::End));
    assert!(matches!(parse_header_line("no colon here"), HeaderLine::Other));
}

#[test]
fn commands_and_delays() {
    assert_eq!(parse_command("pause"), Command::Pause);
    assert_eq!(parse_command("reseed"), Command::Reseed(SeedChoice::Random));
    assert_eq!(parse_command("gosper"), Command::Reseed(SeedChoice::Gosper));
    assert_eq!(parse_command("dance"), Command::Unknown);
    assert_eq!(seed_pattern_name(SeedChoice::Pulsar), "pulsar");
    assert_eq!(faster_delay(15), 1);
    assert_eq!(faster_delay(100), 80);
    assert_eq!(slower_delay(1990), 2000);
    assert_eq!(slower_delay(100), 120);
}

#[test]
fn simple_response_text() {
    assert_eq!(
        http_response(404, "text/plain", "404 Not Found\n"),
        "HTTP/1.1 404 Not Found\r\nContent-Type: text/plain\r\nContent-Length: 14\r\nCache-Control: no-store\r\nX-Content-Type-Options: nosniff\r\nAccess-Control-Allow-Origin: *\r\nConnection: close\r\n\r\n404 Not Found\n"
    );
    let r = http_response(200, "text/plain", "é");
    assert!(r.contains("Content-Length: 2\r\n"));
}
