use place_canvas::engine::UpdateMsg;
use place_canvas::login::Login;
use place_canvas::login::Logins;
use place_canvas::messages::ClientMessage;
use place_canvas::session::ClientRequest;
use place_canvas::session::handle_request;

fn store() -> Logins {
    // digest of password ∥ salt, as the credential file carries it
    let digest = crypto_hash::hex_digest(crypto_hash::Algorithm::SHA256, b"hunter2pepper");
    Logins::new(vec![("admin".to_string(), Login::new("pepper".to_string(), digest))])
}

#[test]
fn verify_login_checks_the_salted_digest() {
    let logins = store();
    assert!(logins.verify_login("admin", "hunter2"));
    assert!(!logins.verify_login("admin", "hunter3"));
    assert!(!logins.verify_login("nobody", "hunter2"));
}

#[test]
fn login_verify_direct() {
    let digest = crypto_hash::hex_digest(crypto_hash::Algorithm::SHA256, b"pwsalt");
    let l = Login::new("salt".to_string(), digest);
    assert!(l.verify("pw"));
    assert!(!l.verify("pw2"));
}

fn auth(login: &str, password: &str) -> ClientRequest {
    ClientRequest::Auth { login: login.to_string(), password: password.to_string() }
}

#[test]
fn auth_rate_limit() {
    let logins = store();
    let infos: Vec<String> = Vec::new();
    // first failed attempt
    let out = handle_request(auth("admin", "wrong"), None, None, &logins, &infos);
    assert_eq!(out.replies.len(), 1);
    assert!(matches!(out.replies[0], ClientMessage::Auth(Some(false))));
    assert!(out.record_attempt);
    assert!(out.login.is_none());
    // a second attempt one second later is rate-limited: null reply
    let out = handle_request(auth("admin", "wrong"), None, Some(1), &logins, &infos);
    assert_eq!(out.replies.len(), 1);
    assert!(matches!(out.replies[0], ClientMessage::Auth(None)));
    assert!(!out.record_attempt);
    // after the window it is checked again
    let out = handle_request(auth("admin", "wrong"), None, Some(4), &logins, &infos);
    assert!(matches!(out.replies[0], ClientMessage::Auth(Some(false))));
}

#[test]
fn auth_success_sets_login() {
    let logins = store();
    let infos: Vec<String> = Vec::new();
    let out = handle_request(auth("admin", "hunter2"), None, None, &logins, &infos);
    assert_eq!(out.replies.len(), 2);
    assert!(matches!(out.replies[0], ClientMessage::Auth(Some(true))));
    match &out.replies[1] {
        ClientMessage::Console(line) => assert_eq!(line, "Logged in (admin)"),
        _ => panic!("expected a console line"),
    }
    assert_eq!(out.login.as_deref(), Some("admin"));
    assert!(!out.record_attempt);
}

#[test]
fn requests_become_update_events() {
    let logins = store();
    let infos: Vec<String> = Vec::new();
    let out = handle_request(
        ClientRequest::SetPixel { x: 1, y: 2, r: 3, g: 4, b: 5 },
        None,
        None,
        &logins,
        &infos,
    );
    assert!(out.replies.is_empty());
    assert!(matches!(
        out.updates[..],
        [UpdateMsg::SetPixel { x: 1, y: 2, r: 3, g: 4, b: 5 }]
    ));
    let out = handle_request(
        ClientRequest::ChatMessage { x_bits: 7, y_bits: 8, text: "yo".to_string() },
        None,
        None,
        &logins,
        &infos,
    );
    match &out.updates[..] {
        [UpdateMsg::ChatMessage { x_bits: 7, y_bits: 8, text }] => assert_eq!(text, "yo"),
        _ => panic!("expected a chat event"),
    }
}

#[test]
fn console_requests_run_commands() {
    let logins = store();
    let infos: Vec<String> = Vec::new();
    let out = handle_request(
        ClientRequest::Console("set-size 64".to_string()),
        None,
        None,
        &logins,
        &infos,
    );
    assert!(out.replies.is_empty());
    assert!(matches!(out.updates[..], [UpdateMsg::SetSize(64)]));
    let out = handle_request(
        ClientRequest::Console("help".to_string()),
        None,
        None,
        &logins,
        &infos,
    );
    match &out.replies[..] {
        [ClientMessage::Console(line)] => {
            assert_eq!(line, "Commands: set-size, broadcast, list-clients")
        }
        _ => panic!("expected one console line"),
    }
}
