use message_queue::queue::{new_queue, Queue};

fn drain(queue: &mut Queue, count: usize) -> Vec<String> {
    let mut out = Vec::new();
    for _ in 0..count {
        out.push(queue.retrieve_message());
    }
    out
}

#[test]
fn fresh_queue_gives_the_empty_message() {
    let mut queue = new_queue();
    assert_eq!(queue.retrieve_message(), "");
    assert_eq!(queue.retrieve_message(), "");
}

#[test]
fn messages_come_out_in_the_order_they_went_in() {
    let mut queue = new_queue();
    queue.add_message(String::from("m1"));
    queue.add_message(String::from("m2"));
    queue.add_message(String::from("m3"));
    assert_eq!(drain(&mut queue, 3), vec!["m1", "m2", "m3"]);
    assert_eq!(queue.retrieve_message(), "");
}

#[test]
fn a_hundred_messages_keep_their_order() {
    let mut queue = new_queue();
    let sent: Vec<String> = (0..100).map(|i| format!("message {}", i)).collect();
    for message in &sent {
        queue.add_message(message.clone());
    }
    assert_eq!(drain(&mut queue, 100), sent);
    assert_eq!(queue.retrieve_message(), "");
}

#[test]
fn retrieval_between_additions_takes_the_oldest() {
    let mut queue = new_queue();
    queue.add_message(String::from("a"));
    queue.add_message(String::from("b"));
    assert_eq!(queue.retrieve_message(), "a");
    queue.add_message(String::from("c"));
    assert_eq!(queue.retrieve_message(), "b");
    assert_eq!(queue.retrieve_message(), "c");
    assert_eq!(queue.retrieve_message(), "");
}

#[test]
fn equal_messages_are_kept_apart() {
    let mut queue = new_queue();
    queue.add_message(String::from("same"));
    queue.add_message(String::from("same"));
    assert_eq!(drain(&mut queue, 3), vec!["same", "same", ""]);
}

#[test]
fn an_empty_message_is_a_message() {
    let mut queue = new_queue();
    queue.add_message(String::new());
    queue.add_message(String::from("after"));
    assert_eq!(queue.retrieve_message(), "");
    assert_eq!(queue.retrieve_message(), "after");
}

#[test]
fn messages_keep_line_breaks_and_other_scripts() {
    let mut queue = new_queue();
    queue.add_message(String::from("hello\nworld"));
    queue.add_message(String::from("grüße, 世界\r\n"));
    assert_eq!(queue.retrieve_message(), "hello\nworld");
    assert_eq!(queue.retrieve_message(), "grüße, 世界\r\n");
}

#[test]
fn any_arrival_order_loses_and_repeats_nothing() {
    let sent = vec!["a", "b", "c", "d"];
    let arrivals: Vec<Vec<usize>> =
        vec![vec![0, 1, 2, 3], vec![3, 2, 1, 0], vec![2, 0, 3, 1], vec![1, 3, 0, 2]];
    for arrival in arrivals {
        let mut queue = new_queue();
        for &i in &arrival {
            queue.add_message(String::from(sent[i]));
        }
        let mut got = drain(&mut queue, sent.len());
        let in_order: Vec<&str> = arrival.iter().map(|&i| sent[i]).collect();
        assert_eq!(got, in_order);
        got.sort();
        assert_eq!(got, sent);
        assert_eq!(queue.retrieve_message(), "");
    }
}
