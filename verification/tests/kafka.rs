use proto2json::error::Error;
use proto2json::kafka::{
    parse, Action, Completion, Controller, Offset, Outcome, Phase, Polled, Topic, Watermark,
    MAX_RETRIES,
};
use proto2json::msg::ParsedKey;

fn at(name: &str, partition: i32, offset: i64) -> Topic {
    Topic {
        name: name.to_string(),
        partition,
        end_offset: Offset::Offset(offset),
    }
}

fn record(name: &str, partition: i32) -> Polled {
    Polled::Record {
        topic: name.to_string(),
        partition,
    }
}

#[test]
fn source_that_delivers_up_to_the_watermark_stops_cleanly() {
    let (lo, hi) = (5i64, 9i64);
    let mut c = Controller::new();
    assert!(c.track("t".to_string(), 0, lo, hi));
    let mut position = lo;
    let mut delivered = 0;
    loop {
        let reports = vec![at("t", 0, position)];
        match c.next_action(&reports) {
            Action::Stop => break,
            Action::Poll => {
                assert_eq!(c.phase(), Phase::Polling);
                assert_eq!(c.on_poll(record("t", 0)), Ok(Outcome::Deliver));
                assert_eq!(c.phase(), Phase::Delivering);
                position += 1;
                delivered += 1;
            }
        }
    }
    assert_eq!(delivered, hi - lo);
    assert_eq!(c.phase(), Phase::Done(Completion::Clean));
    assert_eq!(c.count_missing(&vec![at("t", 0, position)]), 0);
    assert_eq!(
        c.watermark(&"t".to_string(), 0),
        Some(Watermark {
            lo,
            hi,
            received: hi - lo
        })
    );
    assert_eq!(c.retries(), MAX_RETRIES);
}

#[test]
fn source_that_never_delivers_is_given_up_after_the_retry_budget() {
    let mut c = Controller::new();
    c.track("t".to_string(), 0, 0, 3);
    let reports = vec![at("t", 0, 0)];
    let mut idle_polls = 0;
    loop {
        match c.next_action(&reports) {
            Action::Stop => break,
            Action::Poll => {
                idle_polls += 1;
                let outcome = c.on_poll(Polled::Idle).unwrap();
                if idle_polls < MAX_RETRIES {
                    assert_eq!(outcome, Outcome::Retry);
                    assert_eq!(c.phase(), Phase::RetryWait);
                    assert_eq!(c.retries(), MAX_RETRIES - idle_polls);
                } else {
                    assert_eq!(outcome, Outcome::Finished);
                }
            }
        }
    }
    assert_eq!(idle_polls, 10);
    assert_eq!(c.phase(), Phase::Done(Completion::RetryExhausted));
    assert_eq!(c.count_missing(&reports), 1);
}

#[test]
fn a_delivery_refills_the_retry_budget() {
    let mut c = Controller::new();
    c.track("t".to_string(), 0, 0, 100);
    let reports = vec![at("t", 0, 0)];
    for _ in 0..9 {
        assert_eq!(c.next_action(&reports), Action::Poll);
        assert_eq!(c.on_poll(Polled::Idle), Ok(Outcome::Retry));
    }
    assert_eq!(c.retries(), 1);
    assert_eq!(c.next_action(&reports), Action::Poll);
    assert_eq!(c.on_poll(record("t", 0)), Ok(Outcome::Deliver));
    assert_eq!(c.retries(), 10);
    for _ in 0..9 {
        assert_eq!(c.next_action(&reports), Action::Poll);
        assert_eq!(c.on_poll(Polled::Idle), Ok(Outcome::Retry));
    }
    assert_eq!(c.next_action(&reports), Action::Poll);
    assert_eq!(c.on_poll(Polled::Idle), Ok(Outcome::Finished));
    assert_eq!(c.phase(), Phase::Done(Completion::RetryExhausted));
}

#[test]
fn nothing_to_read_stops_before_the_first_poll() {
    let mut c = Controller::new();
    assert_eq!(c.phase(), Phase::Initializing);
    assert_eq!(c.next_action(&vec![]), Action::Stop);
    assert_eq!(c.phase(), Phase::Done(Completion::Clean));

    let mut c = Controller::new();
    c.track("t".to_string(), 0, 4, 4);
    assert_eq!(c.next_action(&vec![at("t", 0, 4)]), Action::Stop);
    assert_eq!(c.phase(), Phase::Done(Completion::Clean));
}

#[test]
fn source_error_is_fatal() {
    let mut c = Controller::new();
    c.track("t".to_string(), 0, 0, 3);
    assert_eq!(c.next_action(&vec![]), Action::Poll);
    assert_eq!(c.on_poll(Polled::Failure), Err(Error::SourceDeliveryFailed));
    assert_eq!(c.phase(), Phase::Done(Completion::Failed));
    assert_eq!(c.next_action(&vec![]), Action::Stop);
}

#[test]
fn record_of_an_untracked_partition_is_a_failed_delivery() {
    let mut c = Controller::new();
    c.track("t".to_string(), 0, 0, 3);
    assert_eq!(c.next_action(&vec![]), Action::Poll);
    assert_eq!(c.on_poll(record("t", 1)), Err(Error::SourceDeliveryFailed));
    assert_eq!(c.phase(), Phase::Done(Completion::Failed));

    let mut c = Controller::new();
    c.track("t".to_string(), 0, 0, 3);
    assert_eq!(c.next_action(&vec![]), Action::Poll);
    assert_eq!(c.on_poll(record("u", 0)), Err(Error::SourceDeliveryFailed));
}

#[test]
fn a_stopped_controller_stays_stopped() {
    let mut c = Controller::new();
    c.track("t".to_string(), 0, 0, 0);
    assert_eq!(c.next_action(&vec![at("t", 0, 0)]), Action::Stop);
    assert_eq!(c.on_poll(record("t", 0)), Ok(Outcome::Finished));
    assert_eq!(c.on_poll(Polled::Idle), Ok(Outcome::Finished));
    assert_eq!(c.on_poll(Polled::Failure), Ok(Outcome::Finished));
    assert_eq!(c.next_action(&vec![]), Action::Stop);
    assert_eq!(c.phase(), Phase::Done(Completion::Clean));
    assert!(!c.track("u".to_string(), 0, 0, 5));
    assert_eq!(c.watermark(&"u".to_string(), 0), None);
    assert_eq!(
        c.watermark(&"t".to_string(), 0),
        Some(Watermark {
            lo: 0,
            hi: 0,
            received: 0
        })
    );
}

#[test]
fn count_missing_counts_partitions_behind_their_watermark() {
    let mut c = Controller::new();
    c.track("a".to_string(), 0, 0, 10);
    c.track("a".to_string(), 1, 0, 10);
    c.track("b".to_string(), 0, 5, 5);
    assert_eq!(c.count_missing(&vec![]), 3);
    assert_eq!(c.count_missing(&vec![at("a", 0, 9)]), 3);
    assert_eq!(c.count_missing(&vec![at("a", 0, 10)]), 2);
    assert_eq!(c.count_missing(&vec![at("a", 0, 11), at("a", 0, 12)]), 2);
    assert_eq!(c.count_missing(&vec![at("a", 0, 3), at("a", 0, 10)]), 2);
    assert_eq!(c.count_missing(&vec![at("zzz", 7, 1000)]), 3);
    assert_eq!(
        c.count_missing(&vec![at("a", 0, 10), at("a", 1, 10), at("b", 0, 5)]),
        0
    );
    let invalid = Topic {
        name: "b".to_string(),
        partition: 0,
        end_offset: Offset::Invalid,
    };
    let tail = Topic {
        name: "b".to_string(),
        partition: 0,
        end_offset: Offset::OffsetTail(1000),
    };
    let end = Topic {
        name: "b".to_string(),
        partition: 0,
        end_offset: Offset::End,
    };
    assert_eq!(
        c.count_missing(&vec![at("a", 0, 10), at("a", 1, 10), invalid, tail, end]),
        1
    );
}

#[test]
fn watermarks_are_taken_while_initializing_only() {
    let mut c = Controller::new();
    assert!(c.track("a".to_string(), 0, 0, 10));
    assert!(c.track("a".to_string(), 0, 2, 20));
    assert_eq!(
        c.watermark(&"a".to_string(), 0),
        Some(Watermark {
            lo: 2,
            hi: 20,
            received: 0
        })
    );
    assert_eq!(c.count_missing(&vec![]), 1);
    assert_eq!(c.next_action(&vec![]), Action::Poll);
    assert!(!c.track("a".to_string(), 0, 0, 30));
    assert!(!c.track("b".to_string(), 0, 0, 30));
    assert_eq!(
        c.watermark(&"a".to_string(), 0),
        Some(Watermark {
            lo: 2,
            hi: 20,
            received: 0
        })
    );
    assert_eq!(c.count_missing(&vec![]), 1);
}

#[test]
fn received_counts_are_kept_by_partition() {
    let mut c = Controller::new();
    c.track("a".to_string(), 0, 0, 10);
    c.track("a".to_string(), 1, 0, 10);
    assert_eq!(c.next_action(&vec![]), Action::Poll);
    assert_eq!(c.on_poll(record("a", 1)), Ok(Outcome::Deliver));
    assert_eq!(c.on_poll(record("a", 1)), Ok(Outcome::Deliver));
    assert_eq!(c.on_poll(record("a", 0)), Ok(Outcome::Deliver));
    assert_eq!(c.watermark(&"a".to_string(), 0).unwrap().received, 1);
    assert_eq!(c.watermark(&"a".to_string(), 1).unwrap().received, 2);
}

#[test]
fn topics_are_listed_once_each() {
    let mut c = Controller::new();
    assert_eq!(c.topics(), Vec::<String>::new());
    c.track("a".to_string(), 0, 0, 1);
    c.track("b".to_string(), 0, 0, 1);
    c.track("a".to_string(), 1, 0, 1);
    c.track("c".to_string(), 2, 0, 1);
    c.track("b".to_string(), 5, 0, 1);
    let mut topics = c.topics();
    topics.sort();
    assert_eq!(topics, vec!["a", "b", "c"]);
}

#[test]
fn a_delivered_record_keeps_its_key_and_payload() {
    let m = parse(
        "orders".to_string(),
        3,
        41,
        1_700_000_000_000,
        Some(b"k1"),
        Some(&[0, 1, 2]),
    );
    assert_eq!(m.topic, "orders");
    assert_eq!(m.partition, 3);
    assert_eq!(m.offset, 41);
    assert_eq!(m.ts, 1_700_000_000_000);
    assert!(matches!(&m.key, ParsedKey::Utf8(s) if s == "k1"));
    assert_eq!(m.key_len, 2);
    assert_eq!(m.msg, vec![0, 1, 2]);
    assert_eq!(m.msg_len, 3);

    let m = parse("orders".to_string(), 0, 0, 0, None, None);
    assert!(matches!(m.key, ParsedKey::Absent));
    assert_eq!(m.key_len, 0);
    assert_eq!(m.msg, Vec::<u8>::new());
    assert_eq!(m.msg_len, 0);

    let m = parse("orders".to_string(), 0, 0, 0, Some(&[0xff, 0xfe]), Some(&[]));
    assert!(matches!(&m.key, ParsedKey::NotUtf8(b) if b == &vec![0xff, 0xfe]));
    assert_eq!(m.key_len, 2);

    let m = parse("orders".to_string(), 0, 0, 0, Some(&[]), None);
    assert!(matches!(&m.key, ParsedKey::Utf8(s) if s.is_empty()));
    assert_eq!(m.key_len, 0);
}
