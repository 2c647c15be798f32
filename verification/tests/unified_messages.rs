use samrewritten::unified_messages::{
    read_body, response_step, sent_handle, CallFailure, ResponseStep, MAX_RESPONSE_BYTES, RESULT_OK,
};

#[test]
fn a_failed_result_is_given_back_whatever_the_size() {
    assert_eq!(
        response_step(Some((10, 15)), false),
        ResponseStep::Fail(CallFailure::ResultFailed(15))
    );
    assert_eq!(
        response_step(Some((0, 2)), true),
        ResponseStep::Fail(CallFailure::ResultFailed(2))
    );
}

#[test]
fn an_ok_answer_is_empty_read_or_too_large() {
    assert_eq!(response_step(Some((0, RESULT_OK)), false), ResponseStep::Empty);
    assert_eq!(response_step(Some((12, RESULT_OK)), true), ResponseStep::Read(12));
    assert_eq!(
        response_step(Some((MAX_RESPONSE_BYTES, RESULT_OK)), false),
        ResponseStep::Read(16 * 1024 * 1024)
    );
    assert_eq!(
        response_step(Some((MAX_RESPONSE_BYTES + 1, RESULT_OK)), false),
        ResponseStep::Fail(CallFailure::TooLarge(MAX_RESPONSE_BYTES + 1))
    );
}

#[test]
fn without_an_answer_the_call_waits_until_the_deadline() {
    assert_eq!(response_step(None, false), ResponseStep::Wait);
    assert_eq!(response_step(None, true), ResponseStep::Fail(CallFailure::TimedOut));
}

#[test]
fn a_zero_handle_means_the_call_was_not_accepted() {
    assert_eq!(sent_handle(0), Err(CallFailure::NotAccepted));
    assert_eq!(sent_handle(77), Ok(77));
}

#[test]
fn an_unread_body_is_a_failure() {
    assert_eq!(read_body(true, vec![1, 2]), Ok(vec![1, 2]));
    assert_eq!(read_body(false, vec![1, 2]), Err(CallFailure::NothingRead));
}
