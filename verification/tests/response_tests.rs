use message_queue::response::{Response, Status};

#[test]
fn status_codes() {
    assert_eq!(Status::Success.code(), 200);
    assert_eq!(Status::BadRequest.code(), 400);
    assert_eq!(Status::NotFound.code(), 404);
}

#[test]
fn status_heads() {
    assert_eq!(Status::Success.head(), "HTTP/1.1 200 OK\r\n\r\n");
    assert_eq!(Status::BadRequest.head(), "HTTP/1.1 400 Bad Request\r\n\r\n");
    assert_eq!(Status::NotFound.head(), "HTTP/1.1 404 Not Found\r\n\r\n");
}

#[test]
fn empty_response_has_no_body() {
    assert_eq!(
        Response::empty(Status::NotFound),
        Response { status: Status::NotFound, body: String::new() }
    );
}

#[test]
fn bytes_without_a_body_are_the_head() {
    assert_eq!(Response::empty(Status::Success).to_bytes(), b"HTTP/1.1 200 OK\r\n\r\n".to_vec());
    assert_eq!(
        Response::empty(Status::BadRequest).to_bytes(),
        b"HTTP/1.1 400 Bad Request\r\n\r\n".to_vec()
    );
    assert_eq!(
        Response::empty(Status::NotFound).to_bytes(),
        b"HTTP/1.1 404 Not Found\r\n\r\n".to_vec()
    );
}

#[test]
fn bytes_with_a_body_are_head_then_body() {
    let response = Response { status: Status::Success, body: String::from("hello\nworld") };
    assert_eq!(response.to_bytes(), b"HTTP/1.1 200 OK\r\n\r\nhello\nworld".to_vec());
    let response =
        Response { status: Status::BadRequest, body: String::from("Queue 'q1' already exists") };
    assert_eq!(
        response.to_bytes(),
        b"HTTP/1.1 400 Bad Request\r\n\r\nQueue 'q1' already exists".to_vec()
    );
}

#[test]
fn bytes_of_a_body_beyond_ascii_are_its_utf8() {
    let response = Response { status: Status::Success, body: String::from("世界") };
    let mut expected = b"HTTP/1.1 200 OK\r\n\r\n".to_vec();
    expected.extend_from_slice(&[0xe4, 0xb8, 0x96, 0xe7, 0x95, 0x8c]);
    assert_eq!(response.to_bytes(), expected);
}
