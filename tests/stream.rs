use ticker_args::stream::log;

#[test]
fn verbose_log_writes_message_and_newline() {
    assert_eq!(log("Getting basic ticker info.....", true), Some(String::from("Getting basic ticker info.....\n")));
    assert_eq!(log("", true), Some(String::from("\n")));
}

#[test]
fn quiet_log_writes_nothing() {
    assert_eq!(log("Getting basic ticker info.....", false), None);
}
