use load_balancer::endpoint::Endpoint;
use load_balancer::health::{
    health_check_request, probe_verdict, read_status_code, status_code_of_response,
};

#[test]
fn status_ok_is_200_and_healthy() {
    assert_eq!(read_status_code("HTTP/1.1 200 OK"), 200);
    assert!(probe_verdict(Some("HTTP/1.1 200 OK")));
}

#[test]
fn status_503_is_unhealthy() {
    assert_eq!(read_status_code("HTTP/1.1 503 X"), 503);
    assert!(!probe_verdict(Some("HTTP/1.1 503 X")));
}

#[test]
fn status_with_too_few_parts_is_404() {
    assert_eq!(read_status_code("HTTP/1.1"), 404);
    assert_eq!(read_status_code("HTTP/1.1 200"), 404);
    assert_eq!(read_status_code(""), 404);
    assert!(!probe_verdict(Some("HTTP/1.1")));
}

#[test]
fn status_not_a_number_is_500() {
    assert_eq!(read_status_code("HTTP/1.1 abc X"), 500);
    assert_eq!(read_status_code("HTTP/1.1  OK"), 500);
    assert!(!probe_verdict(Some("HTTP/1.1 abc X")));
}

#[test]
fn status_follows_u16_parsing() {
    assert_eq!(read_status_code("HTTP/1.1 +204 No"), 204);
    assert_eq!(read_status_code("HTTP/1.1 0399 Odd"), 399);
    assert_eq!(read_status_code("HTTP/1.1 65535 Max"), 65535);
    assert_eq!(read_status_code("HTTP/1.1 65536 Over"), 500);
    assert_eq!(read_status_code("HTTP/1.1 -1 Neg"), 500);
    assert_eq!(read_status_code("HTTP/1.1 + Sign"), 500);
}

#[test]
fn status_boundary_at_400() {
    assert!(probe_verdict(Some("HTTP/1.1 399 Fine\r\n\r\n")));
    assert!(!probe_verdict(Some("HTTP/1.1 400 Bad Request\r\n\r\n")));
}

#[test]
fn reply_500_is_unhealthy() {
    let reply = "HTTP/1.1 500 ERR\r\n\r\n";
    assert_eq!(status_code_of_response(reply), 500);
    assert!(!probe_verdict(Some(reply)));
}

#[test]
fn reply_204_is_healthy() {
    let reply = "HTTP/1.1 204 No Content\r\n\r\n";
    assert_eq!(status_code_of_response(reply), 204);
    assert!(probe_verdict(Some(reply)));
}

#[test]
fn reply_200_from_mock_backend_is_healthy() {
    assert!(probe_verdict(Some("HTTP/1.1 200 OK\r\n\r\n")));
}

#[test]
fn refused_connection_is_unhealthy() {
    assert!(!probe_verdict(None));
}

#[test]
fn only_first_line_counts() {
    let reply = "HTTP/1.1 503 Busy\r\nX: HTTP/1.1 200 OK\r\n\r\nbody 200 OK";
    assert_eq!(status_code_of_response(reply), 503);
    let reply = "HTTP/1.1 200 OK\nServer: x\n\n";
    assert_eq!(status_code_of_response(reply), 200);
}

#[test]
fn first_line_without_newline_keeps_carriage_return() {
    assert_eq!(status_code_of_response("HTTP/1.1 200 OK\r"), 200);
    assert_eq!(status_code_of_response("HTTP/1.1 200\r"), 404);
    assert_eq!(status_code_of_response("HTTP/1.1 200\r\n"), 404);
}

#[test]
fn empty_reply_is_404() {
    assert_eq!(status_code_of_response(""), 404);
    assert_eq!(status_code_of_response("\r\n"), 404);
    assert!(!probe_verdict(Some("")));
}

#[test]
fn probe_request_bytes() {
    let e = Endpoint::new(127, 0, 0, 1, 8000);
    assert_eq!(
        health_check_request(&e),
        b"GET /health_check HTTP/1.1\r\nHost: 127.0.0.1:8000\r\nConnection: close\r\n\r\n"
            .to_vec()
    );
    let e = Endpoint::new(10, 255, 9, 0, 65535);
    assert_eq!(
        health_check_request(&e),
        b"GET /health_check HTTP/1.1\r\nHost: 10.255.9.0:65535\r\nConnection: close\r\n\r\n"
            .to_vec()
    );
}
