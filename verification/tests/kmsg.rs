use modloader::kmsg::{
    extract_required_vermagic, kmsg_path, search_kmsg, KmsgAttempt, KmsgLog, KmsgRead, KmsgSearch,
    KmsgStep,
};

fn required(log: &str) -> Option<String> {
    extract_required_vermagic(log)
}

#[test]
fn a_mismatch_names_the_required_vermagic() {
    assert_eq!(
        required("3,1234,5678,-;mod: version magic '5.4 old' should be '6.1.0 SMP preempt'\n"),
        Some("6.1.0 SMP preempt".to_string())
    );
}

#[test]
fn a_record_without_a_header_is_read_too() {
    assert_eq!(required("version magic 'a' should be 'b'"), Some("b".to_string()));
}

#[test]
fn only_the_first_semicolon_ends_the_header() {
    assert_eq!(required("6,1;x;version magic 'a;b' should be 'c;d'"), Some("c;d".to_string()));
    assert_eq!(required("version magic 'a;b' should be 'c'"), None);
}

#[test]
fn other_records_ask_for_nothing() {
    assert_eq!(required(""), None);
    assert_eq!(required("6,1,1,-;all is well\n"), None);
    assert_eq!(required("6;version magic 'a'"), None);
    assert_eq!(required("6;version magic 'a' should be 'b"), None);
    assert_eq!(required("6;' should be 'b' version magic '"), None);
}

#[test]
fn an_empty_vermagic_does_not_count() {
    assert_eq!(required("6;version magic 'a' should be ''"), None);
    assert_eq!(
        required("6;version magic 'a' should be 'b'\n6;version magic 'a' should be ''\n"),
        Some("b".to_string())
    );
}

#[test]
fn later_records_decide() {
    assert_eq!(
        required("6;version magic 'a' should be 'b'\n6;noise\n6;version magic 'a' should be 'c'\n6;noise\n"),
        Some("c".to_string())
    );
}

#[test]
fn earlier_records_decide_where_later_ones_ask_for_nothing() {
    for end in ["", "\n", "\r", "\r\n"] {
        let earlier = format!("6;version magic 'a' should be 'b'{}", end);
        let log = format!("{}\n6;noise\n", earlier);
        assert_eq!(required(&log), Some("b".to_string()));
        assert_eq!(required(&earlier), Some("b".to_string()));
    }
}

#[test]
fn lines_may_end_in_a_carriage_return() {
    assert_eq!(
        required("6;version magic 'a' should be 'b'\r\nnoise"),
        Some("b".to_string())
    );
    assert_eq!(required("6;version magic 'a' should be 'b'\r"), Some("b".to_string()));
    assert_eq!(required("6;version magic 'a'\n' should be 'b'"), None);
}

#[test]
fn a_vermagic_may_hold_any_letters() {
    assert_eq!(required("6;version magic 'é' should be 'ü ß'"), Some("ü ß".to_string()));
}

/// The log after some records.
fn gather(records: &[&[u8]]) -> KmsgLog {
    let mut log = KmsgLog::new();
    for record in records {
        log = match log.step(KmsgRead::Record(record.to_vec())) {
            KmsgStep::Continue(log) => log,
            other => panic!("{:?}", other),
        };
    }
    log
}

fn text(step: KmsgStep) -> String {
    match step {
        KmsgStep::Done(text) => text,
        other => panic!("{:?}", other),
    }
}

#[test]
fn records_are_gathered_with_line_ends() {
    let log = gather(&[b"6;one", b"6;two\n"]);
    assert_eq!(log.output, b"6;one\n6;two\n\n".to_vec());
    assert_eq!(text(log.step(KmsgRead::WouldBlock)), "6;one\n6;two\n\n");
}

#[test]
fn gathering_ends_at_the_end_of_the_log() {
    assert_eq!(text(KmsgLog::new().step(KmsgRead::End)), "");
    assert_eq!(text(gather(&[b"6;one"]).step(KmsgRead::End)), "6;one\n");
}

#[test]
fn a_log_that_cannot_be_read_gives_nothing_but_the_error() {
    let log = gather(&[b"6;version magic 'a' should be 'b'"]);
    match log.step(KmsgRead::Failed("Broken pipe".to_string())) {
        KmsgStep::Failed(text) => assert_eq!(text, "Cannot read /dev/kmsg: Broken pipe"),
        other => panic!("{:?}", other),
    }
}

#[test]
fn bytes_that_are_no_text_are_replaced() {
    let log = gather(&[b"6;caf\xc3\xa9 \xff!"]);
    assert_eq!(text(log.step(KmsgRead::End)), "6;café \u{fffd}!\n");
    assert_eq!(gather(&[b"\xff"]).into_text(), "\u{fffd}\n");
}

#[test]
fn gathered_records_are_the_lines_of_the_log() {
    let log = gather(&[
        b"6;version magic 'a' should be 'b'",
        b"6;version magic 'a' should be 'c'",
        b"6;noise",
    ]);
    assert_eq!(required(&text(log.step(KmsgRead::WouldBlock))), Some("c".to_string()));
}

#[test]
fn the_log_devices_are_tried_in_order() {
    assert_eq!(kmsg_path(0), Some("/dev/kmsg"));
    assert_eq!(kmsg_path(1), Some("/kmsg"));
    assert_eq!(kmsg_path(2), None);
    assert_eq!(kmsg_path(usize::MAX), None);
    assert!(matches!(
        search_kmsg(0, &KmsgAttempt::OpenFailed("gone".to_string())),
        KmsgSearch::Try(1)
    ));
}

#[test]
fn a_log_device_at_its_end_is_used() {
    assert!(matches!(search_kmsg(0, &KmsgAttempt::AtEnd), KmsgSearch::Use));
    assert!(matches!(search_kmsg(1, &KmsgAttempt::AtEnd), KmsgSearch::Use));
}

#[test]
fn the_search_for_a_log_device_says_why_it_gives_up() {
    match search_kmsg(1, &KmsgAttempt::OpenFailed("gone".to_string())) {
        KmsgSearch::GiveUp(text) => {
            assert_eq!(text, "Cannot open kernel log device, last tried /kmsg: gone");
        }
        other => panic!("{:?}", other),
    }
    match search_kmsg(0, &KmsgAttempt::SeekFailed("stuck".to_string())) {
        KmsgSearch::GiveUp(text) => {
            assert_eq!(text, "Cannot seek /dev/kmsg to end: stuck");
        }
        other => panic!("{:?}", other),
    }
}
