use message_queue::request::Request;
use message_queue::response::{Response, Status};
use message_queue::server::{new_server, Server, DEFAULT_PORT};

const OK: &[u8] = b"HTTP/1.1 200 OK\r\n\r\n";
const BAD_REQUEST: &[u8] = b"HTTP/1.1 400 Bad Request\r\n\r\n";
const NOT_FOUND: &[u8] = b"HTTP/1.1 404 Not Found\r\n\r\n";

fn with_body(head: &[u8], body: &[u8]) -> Vec<u8> {
    let mut bytes = head.to_vec();
    bytes.extend_from_slice(body);
    bytes
}

fn send(server: &mut Server, method: &str, path: &str, body: &str) -> Response {
    server.dispatch(Request { method, path, body })
}

fn plain(status: Status) -> Response {
    Response { status, body: String::new() }
}

#[test]
fn new_server_listens_on_8080_and_has_no_queue() {
    let mut server = new_server();
    assert_eq!(server.port(), 8080);
    assert_eq!(DEFAULT_PORT, 8080);
    assert_eq!(send(&mut server, "GET", "/get/q1", ""), plain(Status::NotFound));
}

#[test]
fn empty_queue_dequeue_is_200_with_the_empty_message() {
    let mut server = new_server();
    assert_eq!(server.handle_request(b"POST /new/q1 HTTP/1.1\r\n\r\n"), OK);
    assert_eq!(server.handle_request(b"GET /get/q1 HTTP/1.1\r\n\r\n"), OK);
    assert_eq!(server.handle_request(b"GET /get/q1 HTTP/1.1\r\n\r\n"), OK);
}

#[test]
fn create_then_duplicate() {
    let mut server = new_server();
    assert_eq!(server.handle_request(b"POST /new/other HTTP/1.1\r\n\r\n"), OK);
    assert_eq!(server.handle_request(b"POST /add/other HTTP/1.1\r\n\r\nkept"), OK);
    assert_eq!(server.handle_request(b"POST /new/q1 HTTP/1.1\r\n\r\n"), OK);
    assert_eq!(
        server.handle_request(b"POST /new/q1 HTTP/1.1\r\n\r\n"),
        with_body(BAD_REQUEST, b"Queue 'q1' already exists")
    );
    assert_eq!(server.handle_request(b"GET /get/other HTTP/1.1\r\n\r\n"), with_body(OK, b"kept"));
    assert_eq!(server.handle_request(b"GET /get/q1 HTTP/1.1\r\n\r\n"), OK);
}

#[test]
fn duplicate_create_keeps_what_the_queue_holds() {
    let mut server = new_server();
    assert_eq!(send(&mut server, "POST", "/new/q1", ""), plain(Status::Success));
    assert_eq!(send(&mut server, "POST", "/add/q1", "m"), plain(Status::Success));
    assert_eq!(
        send(&mut server, "POST", "/new/q1", ""),
        Response { status: Status::BadRequest, body: String::from("Queue 'q1' already exists") }
    );
    assert_eq!(
        send(&mut server, "GET", "/get/q1", ""),
        Response { status: Status::Success, body: String::from("m") }
    );
}

#[test]
fn delete_missing() {
    let mut server = new_server();
    assert_eq!(server.handle_request(b"POST /new/q1 HTTP/1.1\r\n\r\n"), OK);
    assert_eq!(server.handle_request(b"POST /add/q1 HTTP/1.1\r\n\r\nkept"), OK);
    assert_eq!(
        server.handle_request(b"DELETE /delete/ghost HTTP/1.1\r\n\r\n"),
        with_body(BAD_REQUEST, b"Queue 'ghost' cannot be removed as it does not exist")
    );
    assert_eq!(server.handle_request(b"GET /get/ghost HTTP/1.1\r\n\r\n"), NOT_FOUND);
    assert_eq!(server.handle_request(b"GET /get/q1 HTTP/1.1\r\n\r\n"), with_body(OK, b"kept"));
}

#[test]
fn delete_releases_the_queue_and_its_messages() {
    let mut server = new_server();
    assert_eq!(send(&mut server, "POST", "/new/q1", ""), plain(Status::Success));
    assert_eq!(send(&mut server, "POST", "/add/q1", "lost"), plain(Status::Success));
    assert_eq!(send(&mut server, "DELETE", "/delete/q1", ""), plain(Status::Success));
    assert_eq!(send(&mut server, "GET", "/get/q1", ""), plain(Status::NotFound));
    assert_eq!(
        send(&mut server, "DELETE", "/delete/q1", ""),
        Response {
            status: Status::BadRequest,
            body: String::from("Queue 'q1' cannot be removed as it does not exist"),
        }
    );
    assert_eq!(send(&mut server, "POST", "/new/q1", ""), plain(Status::Success));
    assert_eq!(send(&mut server, "GET", "/get/q1", ""), plain(Status::Success));
}

#[test]
fn unknown_queue_access() {
    let mut server = new_server();
    assert_eq!(server.handle_request(b"GET /get/ghost HTTP/1.1\r\n\r\n"), NOT_FOUND);
    assert_eq!(server.handle_request(b"POST /add/ghost HTTP/1.1\r\n\r\nhello"), NOT_FOUND);
    assert_eq!(server.handle_request(b"GET /get/ghost HTTP/1.1\r\n\r\n"), NOT_FOUND);
    assert_eq!(server.handle_request(b"POST /new/ghost HTTP/1.1\r\n\r\n"), OK);
    assert_eq!(server.handle_request(b"GET /get/ghost HTTP/1.1\r\n\r\n"), OK);
}

#[test]
fn round_trip() {
    let mut server = new_server();
    assert_eq!(server.handle_request(b"POST /new/q1 HTTP/1.1\r\n\r\n"), OK);
    assert_eq!(
        server.handle_request(b"POST /add/q1 HTTP/1.1\r\nHost: localhost\r\n\r\nhello\nworld"),
        OK
    );
    assert_eq!(
        server.handle_request(b"GET /get/q1 HTTP/1.1\r\n\r\n"),
        with_body(OK, b"hello\nworld")
    );
    assert_eq!(server.handle_request(b"GET /get/q1 HTTP/1.1\r\n\r\n"), OK);
}

#[test]
fn round_trip_keeps_every_byte_of_the_body() {
    let bodies: Vec<&[u8]> = vec![
        b"a\r\nb\r\n\r\nc\r\n",
        b"\n\n\n",
        b" leading and trailing ",
        "grüße, 世界 ✓".as_bytes(),
        b"POST /new/inner HTTP/1.1\r\n\r\nnot a request",
    ];
    let mut server = new_server();
    assert_eq!(server.handle_request(b"POST /new/q1\r\n\r\n"), OK);
    for body in &bodies {
        assert_eq!(server.handle_request(&with_body(b"POST /add/q1 x\r\n\r\n", body)), OK);
    }
    for body in &bodies {
        assert_eq!(server.handle_request(b"GET /get/q1\r\n\r\n"), with_body(OK, body));
    }
    assert_eq!(server.handle_request(b"GET /get/q1\r\n\r\n"), OK);
    assert_eq!(server.handle_request(b"GET /get/inner\r\n\r\n"), NOT_FOUND);
}

#[test]
fn fifo_order_through_requests() {
    let mut server = new_server();
    assert_eq!(send(&mut server, "POST", "/new/jobs", ""), plain(Status::Success));
    let sent: Vec<String> = (1..=20).map(|i| format!("m{}", i)).collect();
    for message in &sent {
        assert_eq!(send(&mut server, "POST", "/add/jobs", message), plain(Status::Success));
    }
    for message in &sent {
        assert_eq!(
            send(&mut server, "GET", "/get/jobs", ""),
            Response { status: Status::Success, body: message.clone() }
        );
    }
    assert_eq!(send(&mut server, "GET", "/get/jobs", ""), plain(Status::Success));
}

#[test]
fn add_without_a_body_enqueues_the_empty_message() {
    let mut server = new_server();
    assert_eq!(server.handle_request(b"POST /new/q1\r\n\r\n"), OK);
    assert_eq!(server.handle_request(b"POST /add/q1\r\n"), OK);
    assert_eq!(server.handle_request(b"POST /add/q1\r\n\r\nsecond"), OK);
    assert_eq!(server.handle_request(b"GET /get/q1\r\n\r\n"), OK);
    assert_eq!(server.handle_request(b"GET /get/q1\r\n\r\n"), with_body(OK, b"second"));
}

#[test]
fn the_body_of_other_routes_is_ignored() {
    let mut server = new_server();
    assert_eq!(server.handle_request(b"POST /new/q1\r\n\r\nignored"), OK);
    assert_eq!(server.handle_request(b"GET /get/q1\r\n\r\nignored"), OK);
    assert_eq!(server.handle_request(b"DELETE /delete/q1\r\n\r\nignored"), OK);
    assert_eq!(server.handle_request(b"GET /get/q1\r\n\r\n"), NOT_FOUND);
}

#[test]
fn anything_else_is_404() {
    let mut server = new_server();
    assert_eq!(send(&mut server, "POST", "/new/q1", ""), plain(Status::Success));
    let others = [
        ("GET", "/new/q1"),
        ("GET", "/add/q1"),
        ("GET", "/delete/q1"),
        ("POST", "/get/q1"),
        ("POST", "/delete/q1"),
        ("DELETE", "/get/q1"),
        ("DELETE", "/new/q1"),
        ("DELETE", "/add/q1"),
        ("PUT", "/new/q2"),
        ("HEAD", "/get/q1"),
        ("", "/get/q1"),
        ("GET", ""),
        ("GET", "/"),
        ("GET", "/get"),
        ("GET", "get/q1"),
        ("GET", "/x/get/q1"),
        ("POST", "/news/q2"),
        ("POST", "new/q2"),
    ];
    for (method, path) in others {
        assert_eq!(send(&mut server, method, path, "body"), plain(Status::NotFound));
    }
    assert_eq!(server.handle_request(b"PATCH /new/q2 HTTP/1.1\r\n\r\n"), NOT_FOUND);
    assert_eq!(send(&mut server, "GET", "/get/q1", ""), plain(Status::Success));
    assert_eq!(send(&mut server, "GET", "/get/q2", ""), plain(Status::NotFound));
}

#[test]
fn method_and_prefix_are_matched_by_case() {
    let mut server = new_server();
    assert_eq!(send(&mut server, "post", "/new/q1", ""), plain(Status::NotFound));
    assert_eq!(send(&mut server, "Post", "/new/q1", ""), plain(Status::NotFound));
    assert_eq!(send(&mut server, "POST", "/NEW/q1", ""), plain(Status::NotFound));
    assert_eq!(send(&mut server, "POST", "/New/q1", ""), plain(Status::NotFound));
    assert_eq!(send(&mut server, "POST", "/new/q1", ""), plain(Status::Success));
    assert_eq!(send(&mut server, "get", "/get/q1", ""), plain(Status::NotFound));
    assert_eq!(send(&mut server, "GET", "/Get/q1", ""), plain(Status::NotFound));
    assert_eq!(send(&mut server, "delete", "/delete/q1", ""), plain(Status::NotFound));
    assert_eq!(send(&mut server, "GET", "/get/Q1", ""), plain(Status::NotFound));
    assert_eq!(send(&mut server, "GET", "/get/q1", ""), plain(Status::Success));
}

#[test]
fn the_name_is_all_that_follows_the_prefix() {
    let mut server = new_server();
    assert_eq!(send(&mut server, "POST", "/new/a/b/c", ""), plain(Status::Success));
    assert_eq!(send(&mut server, "GET", "/get/a", ""), plain(Status::NotFound));
    assert_eq!(send(&mut server, "GET", "/get/a/b", ""), plain(Status::NotFound));
    assert_eq!(send(&mut server, "POST", "/add/a/b/c", "deep"), plain(Status::Success));
    assert_eq!(
        send(&mut server, "GET", "/get/a/b/c", ""),
        Response { status: Status::Success, body: String::from("deep") }
    );
    assert_eq!(
        send(&mut server, "POST", "/new/a/b/c", ""),
        Response { status: Status::BadRequest, body: String::from("Queue 'a/b/c' already exists") }
    );
    assert_eq!(send(&mut server, "DELETE", "/delete/a/b/c", ""), plain(Status::Success));
}

#[test]
fn only_the_prefix_is_taken_off_the_path() {
    let mut server = new_server();
    assert_eq!(send(&mut server, "POST", "/new/a/new/b", ""), plain(Status::Success));
    assert_eq!(send(&mut server, "GET", "/get/ab", ""), plain(Status::NotFound));
    assert_eq!(send(&mut server, "GET", "/get/a/new/b", ""), plain(Status::Success));
    assert_eq!(send(&mut server, "POST", "/new//new/", ""), plain(Status::Success));
    assert_eq!(send(&mut server, "GET", "/get//new/", ""), plain(Status::Success));
    assert_eq!(send(&mut server, "GET", "/get/", ""), plain(Status::NotFound));
}

#[test]
fn the_empty_name_is_a_name() {
    let mut server = new_server();
    assert_eq!(send(&mut server, "GET", "/get/", ""), plain(Status::NotFound));
    assert_eq!(send(&mut server, "POST", "/new/", ""), plain(Status::Success));
    assert_eq!(
        send(&mut server, "POST", "/new/", ""),
        Response { status: Status::BadRequest, body: String::from("Queue '' already exists") }
    );
    assert_eq!(send(&mut server, "POST", "/add/", "m"), plain(Status::Success));
    assert_eq!(
        send(&mut server, "GET", "/get/", ""),
        Response { status: Status::Success, body: String::from("m") }
    );
    assert_eq!(send(&mut server, "DELETE", "/delete/", ""), plain(Status::Success));
    assert_eq!(
        send(&mut server, "DELETE", "/delete/", ""),
        Response {
            status: Status::BadRequest,
            body: String::from("Queue '' cannot be removed as it does not exist"),
        }
    );
}

#[test]
fn names_beyond_ascii() {
    let mut server = new_server();
    assert_eq!(server.handle_request("POST /new/grüße\r\n\r\n".as_bytes()), OK);
    assert_eq!(
        server.handle_request("POST /new/grüße\r\n\r\n".as_bytes()),
        with_body(BAD_REQUEST, "Queue 'grüße' already exists".as_bytes())
    );
    assert_eq!(server.handle_request("POST /add/grüße\r\n\r\n世界".as_bytes()), OK);
    assert_eq!(server.handle_request("GET /get/grusse\r\n\r\n".as_bytes()), NOT_FOUND);
    assert_eq!(
        server.handle_request("GET /get/grüße\r\n\r\n".as_bytes()),
        with_body(OK, "世界".as_bytes())
    );
}

#[test]
fn malformed_requests_are_400_and_change_nothing() {
    let mut server = new_server();
    assert_eq!(server.handle_request(b"POST /new/q1\r\n\r\n"), OK);
    assert_eq!(server.handle_request(b"POST /add/q1\r\n\r\nkept"), OK);
    assert_eq!(server.handle_request(b""), BAD_REQUEST);
    assert_eq!(server.handle_request(b"GET"), BAD_REQUEST);
    assert_eq!(server.handle_request(b"GET/get/q1\r\n\r\n"), BAD_REQUEST);
    assert_eq!(server.handle_request(b"\r\n\r\n"), BAD_REQUEST);
    assert_eq!(server.handle_request(b"\r\nGET /get/q1\r\n\r\n"), BAD_REQUEST);
    assert_eq!(server.handle_request(b"GET /get/q1\r\n\r\n\xff\xfe"), BAD_REQUEST);
    assert_eq!(server.handle_request(b"POST /add/q1\r\n\r\n\xc0\xaf"), BAD_REQUEST);
    assert_eq!(server.handle_request(b"DELETE /delete/q\xf81\r\n\r\n"), BAD_REQUEST);
    assert_eq!(server.handle_request(b"GET /get/q1\r\n\r\n"), with_body(OK, b"kept"));
    assert_eq!(server.handle_request(b"GET /get/q1\r\n\r\n"), OK);
}

#[test]
fn a_request_line_without_a_third_token_names_the_same_queue() {
    let mut server = new_server();
    assert_eq!(server.handle_request(b"POST /new/q1\r\n\r\n"), OK);
    assert_eq!(
        server.handle_request(b"POST /new/q1 HTTP/1.1\r\n\r\n"),
        with_body(BAD_REQUEST, b"Queue 'q1' already exists")
    );
    assert_eq!(server.handle_request(b"POST /add/q1\n\r\nbare"), OK);
    assert_eq!(server.handle_request(b"GET /get/q1"), with_body(OK, b"bare"));
}

#[test]
fn many_queues_stay_apart() {
    let mut server = new_server();
    for i in 0..50 {
        let path = format!("/new/queue-{}", i);
        assert_eq!(send(&mut server, "POST", &path, ""), plain(Status::Success));
    }
    for round in 0..3 {
        for i in 0..50 {
            let path = format!("/add/queue-{}", i);
            let message = format!("{}:{}", i, round);
            assert_eq!(send(&mut server, "POST", &path, &message), plain(Status::Success));
        }
    }
    for i in (0..50).step_by(2) {
        let path = format!("/delete/queue-{}", i);
        assert_eq!(send(&mut server, "DELETE", &path, ""), plain(Status::Success));
    }
    for i in 0..50 {
        let path = format!("/get/queue-{}", i);
        if i % 2 == 0 {
            assert_eq!(send(&mut server, "GET", &path, ""), plain(Status::NotFound));
        } else {
            for round in 0..3 {
                assert_eq!(
                    send(&mut server, "GET", &path, ""),
                    Response { status: Status::Success, body: format!("{}:{}", i, round) }
                );
            }
            assert_eq!(send(&mut server, "GET", &path, ""), plain(Status::Success));
        }
    }
}

#[test]
fn callers_in_any_order_lose_and_repeat_nothing() {
    let callers: usize = 16;
    for stride in [1, 3, 5, 7, 9, 11, 13, 15] {
        let mut server = new_server();
        assert_eq!(server.handle_request(b"POST /new/shared\r\n\r\n"), OK);
        for turn in 0..callers {
            let caller = (turn * stride + stride) % callers;
            let raw = format!("POST /add/shared HTTP/1.1\r\n\r\nmessage {}", caller);
            assert_eq!(server.handle_request(raw.as_bytes()), OK);
        }
        let mut got = Vec::new();
        for _ in 0..callers {
            let reply = server.handle_request(b"GET /get/shared\r\n\r\n");
            assert!(reply.starts_with(OK));
            got.push(String::from_utf8(reply[OK.len()..].to_vec()).unwrap());
        }
        got.sort();
        let mut sent: Vec<String> = (0..callers).map(|i| format!("message {}", i)).collect();
        sent.sort();
        assert_eq!(got, sent);
        assert_eq!(server.handle_request(b"GET /get/shared\r\n\r\n"), OK);
    }
}
