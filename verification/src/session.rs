use vstd::prelude::*;

use vstd::string::StringExecFns;

use crate::console::all_digits;
use crate::console::digit_seq;
use crate::console::digits_val;
use crate::console::parse_run;
use crate::console::run_command;
use crate::console::spec_split;
use crate::console::strs;
use crate::engine::UpdateMsg;
use crate::engine::frame_views;
use crate::login::Logins;
use crate::login::login_ok;
use crate::messages::ClientMessage;
use crate::messages::FrameView;

verus! {

/// One inbound request, already parsed out of its JSON frame by the
/// transport layer.  Chat coordinates travel as the raw bit patterns of the
/// client's 32-bit float values.
pub enum ClientRequest {
    SetPixel { x: u32, y: u32, r: u8, g: u8, b: u8 },
    ChatMessage { x_bits: u32, y_bits: u32, text: String },
    Auth { login: String, password: String },
    Console(String),
}

/// How many seconds a failed auth attempt blocks further attempts.
pub const AUTH_RATE_LIMIT_SECS: u64 = 3;

/// What one request decides: reply frames for the issuing client, mutation
/// events for the engine queue, the session's new login, and whether the
/// caller must stamp a failed auth attempt now.
pub struct RequestOutcome {
    pub replies: Vec<ClientMessage>,
    pub updates: Vec<UpdateMsg>,
    pub login: Option<String>,
    pub record_attempt: bool,
}

/// The console frames of a list of reply lines.
pub open spec fn console_frames(lines: Seq<Seq<char>>) -> Seq<FrameView> {
    lines.map_values(|l: Seq<char>| FrameView::Console(l))
}

/// Decide one inbound request.  `secs_since_failed_auth` is how long ago
/// this session's last failed auth attempt was, if any.  The caller sends
/// the replies over the issuing connection, queues the updates for the
/// engine, stores the returned login, and stamps the attempt time when
/// `record_attempt` is set.
pub fn handle_request(
    req: ClientRequest,
    current_login: Option<String>,
    secs_since_failed_auth: Option<u64>,
    logins: &Logins,
    client_infos: &Vec<String>,
) -> (out: RequestOutcome)
    ensures
        req is SetPixel ==> ({
            &&& out.replies@.len() == 0
            &&& out.updates@.len() == 1
            &&& out.updates@[0] is SetPixel
            &&& out.updates@[0]->SetPixel_x == req->SetPixel_x
            &&& out.updates@[0]->SetPixel_y == req->SetPixel_y
            &&& out.updates@[0]->SetPixel_r == req->SetPixel_r
            &&& out.updates@[0]->SetPixel_g == req->SetPixel_g
            &&& out.updates@[0]->SetPixel_b == req->SetPixel_b
            &&& out.login == current_login
            &&& !out.record_attempt
        }),
        req is ChatMessage ==> ({
            &&& out.replies@.len() == 0
            &&& out.updates@.len() == 1
            &&& out.updates@[0] is ChatMessage
            &&& out.updates@[0]->ChatMessage_x_bits == req->ChatMessage_x_bits
            &&& out.updates@[0]->ChatMessage_y_bits == req->ChatMessage_y_bits
            &&& out.updates@[0]->ChatMessage_text@ == req->ChatMessage_text@
            &&& out.login == current_login
            &&& !out.record_attempt
        }),
        req is Auth ==> ({
            let rate_limited = match secs_since_failed_auth {
                Some(s) => s < AUTH_RATE_LIMIT_SECS,
                None => false,
            };
            if rate_limited {
                &&& frame_views(out.replies@) == seq![FrameView::Auth(None)]
                &&& out.updates@.len() == 0
                &&& out.login == current_login
                &&& !out.record_attempt
            } else if login_ok(logins.entries(), req->Auth_login@, req->Auth_password@) {
                &&& frame_views(out.replies@) == seq![
                    FrameView::Auth(Some(true)),
                    FrameView::Console("Logged in ("@ + req->Auth_login@ + ")"@),
                ]
                &&& out.updates@.len() == 0
                &&& out.login is Some
                &&& out.login->Some_0@ == req->Auth_login@
                &&& !out.record_attempt
            } else {
                &&& frame_views(out.replies@) == seq![FrameView::Auth(Some(false))]
                &&& out.updates@.len() == 0
                &&& out.login == current_login
                &&& out.record_attempt
            }
        }),
        req is Console ==> ({
            let toks = spec_split(req->Console_0@);
            let st = parse_run(toks.drop_first());
            &&& out.login == current_login
            &&& !out.record_attempt
            &&& if toks.len() == 0 {
                out.replies@.len() == 0 && out.updates@.len() == 0
            } else if toks[0] == "help"@ {
                &&& frame_views(out.replies@) == seq![
                    FrameView::Console("Commands: set-size, broadcast, list-clients"@),
                ]
                &&& out.updates@.len() == 0
            } else if toks[0] == "set-size"@ {
                if st.args.len() < 1 {
                    &&& frame_views(out.replies@) == seq![FrameView::Console("set-size <size>"@)]
                    &&& out.updates@.len() == 0
                } else if all_digits(digit_seq(st.args[0])) && digits_val(digit_seq(st.args[0]))
                    <= u32::MAX {
                    &&& out.replies@.len() == 0
                    &&& out.updates@.len() == 1
                    &&& out.updates@[0] is SetSize
                    &&& out.updates@[0]->SetSize_0 == digits_val(digit_seq(st.args[0]))
                } else {
                    &&& frame_views(out.replies@) == seq![
                        FrameView::Console("set-size <size: integer>"@),
                    ]
                    &&& out.updates@.len() == 0
                }
            } else if toks[0] == "broadcast"@ {
                if st.args.len() < 1 {
                    &&& frame_views(out.replies@) == seq![
                        FrameView::Console("broadcast <message>"@),
                    ]
                    &&& out.updates@.len() == 0
                } else {
                    &&& out.replies@.len() == 0
                    &&& out.updates@.len() == 1
                    &&& out.updates@[0] is Broadcast
                    &&& out.updates@[0]->Broadcast_text@ == st.args[0]
                }
            } else if toks[0] == "list-clients"@ {
                &&& frame_views(out.replies@) == console_frames(strs(client_infos@))
                &&& out.updates@.len() == 0
            } else {
                &&& frame_views(out.replies@) == seq![
                    FrameView::Console("Unknown command, `help` for help"@),
                ]
                &&& out.updates@.len() == 0
            }
        }),
{
    match req {
        ClientRequest::SetPixel { x, y, r, g, b } => {
            let mut updates: Vec<UpdateMsg> = Vec::new();
            updates.push(UpdateMsg::SetPixel { x, y, r, g, b });
            RequestOutcome { replies: Vec::new(), updates, login: current_login, record_attempt: false }
        },
        ClientRequest::ChatMessage { x_bits, y_bits, text } => {
            let mut updates: Vec<UpdateMsg> = Vec::new();
            updates.push(UpdateMsg::ChatMessage { x_bits, y_bits, text });
            RequestOutcome { replies: Vec::new(), updates, login: current_login, record_attempt: false }
        },
        ClientRequest::Auth { login, password } => {
            let rate_limited = match secs_since_failed_auth {
                Some(s) => s < AUTH_RATE_LIMIT_SECS,
                None => false,
            };
            let mut replies: Vec<ClientMessage> = Vec::new();
            if rate_limited {
                replies.push(ClientMessage::Auth(None));
                proof {
                    assert(frame_views(replies@) =~= seq![FrameView::Auth(None)]);
                }
                RequestOutcome {
                    replies,
                    updates: Vec::new(),
                    login: current_login,
                    record_attempt: false,
                }
            } else if logins.verify_login(login.as_str(), password.as_str()) {
                replies.push(ClientMessage::Auth(Some(true)));
                let notice = String::from_str("Logged in (").concat(login.as_str()).concat(")");
                replies.push(ClientMessage::Console(notice));
                proof {
                    assert(frame_views(replies@) =~= seq![
                        FrameView::Auth(Some(true)),
                        FrameView::Console("Logged in ("@ + login@ + ")"@),
                    ]);
                }
                RequestOutcome {
                    replies,
                    updates: Vec::new(),
                    login: Some(login),
                    record_attempt: false,
                }
            } else {
                replies.push(ClientMessage::Auth(Some(false)));
                proof {
                    assert(frame_views(replies@) =~= seq![FrameView::Auth(Some(false))]);
                }
                RequestOutcome {
                    replies,
                    updates: Vec::new(),
                    login: current_login,
                    record_attempt: true,
                }
            }
        },
        ClientRequest::Console(cmd) => {
            let outcome = run_command(client_infos, cmd.as_str());
            let mut replies: Vec<ClientMessage> = Vec::new();
            let n = outcome.lines.len();
            let mut i: usize = 0;
            while i < n
                invariant
                    n == outcome.lines@.len(),
                    i <= n,
                    replies@.len() == i,
                    forall|j: int| #![trigger replies@[j]]
                        0 <= j < i ==> replies@[j]@ == FrameView::Console(outcome.lines@[j]@),
                decreases n - i,
            {
                let line = outcome.lines[i].clone();
                replies.push(ClientMessage::Console(line));
                i += 1;
            }
            proof {
                assert(frame_views(replies@) =~= console_frames(strs(outcome.lines@)));
                let toks = spec_split(cmd@);
                if toks.len() > 0 && !(toks[0] == "help"@) && !(toks[0] == "set-size"@) && !(toks[0]
                    == "broadcast"@) && toks[0] == "list-clients"@ {
                    assert(console_frames(strs(outcome.lines@)) =~= console_frames(
                        strs(client_infos@),
                    ));
                }
            }
            RequestOutcome {
                replies,
                updates: outcome.updates,
                login: current_login,
                record_attempt: false,
            }
        },
    }
}

} // verus!
