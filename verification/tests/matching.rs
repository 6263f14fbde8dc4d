use mathema::quiz::check_user_response;

#[test]
fn check_user_response1() {
    assert!(check_user_response("a, b (c)", "a"));
    assert!(check_user_response("a, b (c)", "b"));
    assert!(check_user_response("a, b (c)", "b "));
    assert!(check_user_response("a, b (c)", "a, b"));
    assert!(check_user_response("a, b (c)", " a, b"));
    assert!(!check_user_response("a, b (c)", "c"));
}

#[test]
fn whole_line_matches_after_trim() {
    assert!(check_user_response("  hello  ", "hello"));
    assert!(check_user_response("hello", "  hello  "));
    assert!(!check_user_response("hello", "hell"));
}

#[test]
fn parenthetical_spans_first_open_to_last_close() {
    // the span runs from the first open to the last close
    assert!(check_user_response("a (x) b (y)", "a"));
    assert!(!check_user_response("a (x) b (y)", "a  b"));
    // an unmatched parenthesis strips nothing
    assert!(check_user_response("a (b", "a (b"));
    assert!(check_user_response("a) b", "a) b"));
}

#[test]
fn comma_alternatives_each_count() {
    assert!(check_user_response("one, two, three", "two"));
    assert!(check_user_response("one, two, three", "three"));
    assert!(!check_user_response("one, two, three", "four"));
    // an empty alternative accepts the empty answer
    assert!(check_user_response("a,,b", ""));
    assert!(check_user_response("abc,", ""));
    assert!(check_user_response("(all of it)", ""));
}
