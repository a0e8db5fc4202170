use discovery_engine_core::message::{
    last_response, CookieGenerator, LoopAction, LoopEvent, LoopPhase, MagicCookie, Message,
    MessageLoop, Package, ResponseChannelBroken,
};

fn message(bytes: &[u8]) -> Message {
    Message { message: bytes.to_vec() }
}

#[test]
fn generated_cookies_count_down_from_minus_one() {
    let mut cookies = CookieGenerator::new();
    assert_eq!(MagicCookie::generate_cookie(&mut cookies), MagicCookie(-1));
    assert_eq!(MagicCookie::generate_cookie(&mut cookies), MagicCookie(-2));
    assert_eq!(MagicCookie::generate_cookie(&mut cookies), MagicCookie(-3));
}

#[test]
fn responses_carry_the_cookie_of_their_request() {
    let mut cookies = CookieGenerator::new();
    let mut main = MessageLoop::start(MagicCookie(1));
    assert!(matches!(main.step(LoopEvent::Created, &mut cookies), LoopAction::Receive));
    let request = Package { message: message(b"req"), cookie: MagicCookie(42) };
    assert!(matches!(main.step(LoopEvent::Received(request), &mut cookies), LoopAction::Handle(_)));
    match main.step(LoopEvent::Handled(message(b"resp")), &mut cookies) {
        LoopAction::Send(p) => {
            assert_eq!(p.cookie, MagicCookie(42));
            assert_eq!(p.message.message, b"resp");
        }
        _ => panic!("expected a response to send"),
    }
    assert!(matches!(main.step(LoopEvent::Sent, &mut cookies), LoopAction::Receive));
    assert_eq!(main.current_phase(), LoopPhase::Waiting);
}

#[test]
fn failed_creation_answers_with_the_initial_cookie() {
    let mut cookies = CookieGenerator::new();
    let mut main = MessageLoop::start(MagicCookie(7));
    match main.step(LoopEvent::CreateFailed(message(b"err")), &mut cookies) {
        LoopAction::Finish(Some(p)) => assert_eq!(p.cookie, MagicCookie(7)),
        _ => panic!("expected a last response"),
    }
    assert_eq!(main.current_phase(), LoopPhase::Finished);
}

#[test]
fn shutdown_answers_with_a_new_cookie() {
    let mut cookies = CookieGenerator::new();
    let mut main = MessageLoop::start(MagicCookie(7));
    main.step(LoopEvent::Created, &mut cookies);
    assert!(matches!(main.step(LoopEvent::Closed, &mut cookies), LoopAction::Shutdown));
    match main.step(LoopEvent::ShutDown(message(b"bye")), &mut cookies) {
        LoopAction::Finish(Some(p)) => assert_eq!(p.cookie, MagicCookie(-1)),
        _ => panic!("expected a last response"),
    }
}

#[test]
fn a_broken_channel_ends_the_loop_silently() {
    let mut cookies = CookieGenerator::new();
    let mut main = MessageLoop::start(MagicCookie(7));
    main.step(LoopEvent::Created, &mut cookies);
    main.step(LoopEvent::Received(Package { message: message(b""), cookie: MagicCookie(3) }), &mut cookies);
    main.step(LoopEvent::Handled(message(b"")), &mut cookies);
    assert!(matches!(main.step(LoopEvent::SendFailed, &mut cookies), LoopAction::Finish(None)));
    assert!(!main.accepts(&LoopEvent::Sent));
    let _ = ResponseChannelBroken;
}

#[test]
fn an_aborted_task_answers_with_a_new_cookie() {
    let mut cookies = CookieGenerator::new();
    let r = last_response(Err(message(b"aborted")), &mut cookies).unwrap();
    assert_eq!(r.cookie, MagicCookie(-1));
    assert!(last_response(Ok(None), &mut cookies).is_none());
}
