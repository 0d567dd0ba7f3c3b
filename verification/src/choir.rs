//! Choir synchronisation: the wire messages, the naming of discovered
//! choirs, and the decisions of the server and of a member's connection,
//! written as steps from a received frame to an action. Sockets, mDNS and
//! JSON framing stay with the caller, which performs the actions.
use vstd::prelude::*;
use vstd::string::StringExecFns;
use crate::text::{split, split_chars, lemma_split_nonempty, str_to_chars, chars_to_string, decimal_digits, push_decimal};

verus! {

// ─── Wire messages ────────────────────────────────────────────────────────

/// Client → server: join request (first message after connecting).
#[derive(Debug, Clone)]
pub struct JoinRequest {
    /// Message type, "join"
    pub typ: String,
    pub choir_name: String,
    pub password: String,
}

/// Server → client: join result.
#[derive(Debug, Clone)]
pub struct JoinResponse {
    /// "join_ok" or "join_err"
    pub typ: String,
    /// Why the join failed
    pub message: Option<String>,
}

/// Member → server → all members: playback command with a target time.
#[derive(Debug, Clone)]
pub struct CommandMessage {
    /// Message type, "command"
    pub typ: String,
    /// One of "play", "pause", "stop", "next", "prev"
    pub command: String,
    /// Unix time in milliseconds at which every member executes it
    pub execute_at: i64,
}

/// A command waiting for its time, as handed to the app.
#[derive(Debug, Clone)]
pub struct ScheduledCommand {
    pub command: String,
    pub execute_at_ms: i64,
}

/// A discovered choir: display name and WebSocket URL (ws://host:port).
#[derive(Debug, Clone)]
pub struct ResolvedChoir {
    pub choir_name: String,
    pub ws_url: String,
}

impl JoinRequest {
    /// A join request for a choir.
    pub fn new(choir_name: String, password: String) -> (r: Self)
        ensures
            r.typ@ == "join"@,
            r.choir_name@ == choir_name@,
            r.password@ == password@,
    {
        JoinRequest { typ: String::from_str("join"), choir_name, password }
    }
}

impl JoinResponse {
    /// Successful join.
    pub fn ok() -> (r: Self)
        ensures
            r.typ@ == "join_ok"@,
            r.message is None,
    {
        JoinResponse { typ: String::from_str("join_ok"), message: None }
    }

    /// Refused join, with the reason.
    pub fn err(message: String) -> (r: Self)
        ensures
            r.typ@ == "join_err"@,
            r.message matches Some(m) && m@ == message@,
    {
        JoinResponse { typ: String::from_str("join_err"), message: Some(message) }
    }
}

impl CommandMessage {
    /// A command message to be executed at `execute_at` (Unix ms).
    pub fn new(command: &str, execute_at: i64) -> (r: Self)
        ensures
            r.typ@ == "command"@,
            r.command@ == command@,
            r.execute_at == execute_at,
    {
        CommandMessage { typ: String::from_str("command"), command: String::from_str(command), execute_at }
    }
}

// ─── Naming discovered choirs ─────────────────────────────────────────────

/// Instance name of an mDNS full name: the text before the first '.'.
pub open spec fn instance_name(fullname: Seq<char>) -> Seq<char> {
    split(fullname, '.', '.')[0]
}

/// Instance (choir) name of an mDNS service full name, e.g.
/// "Tenors._solobandchoir._tcp.local." → "Tenors".
pub fn instance_name_from_fullname(fullname: &str) -> (r: String)
    ensures
        r@ == instance_name(fullname@),
{
    let chars = str_to_chars(fullname);
    let pieces = split_chars(&chars, '.', '.');
    proof {
        lemma_split_nonempty(chars@, '.', '.');
    }
    chars_to_string(&pieces[0])
}

/// The string without its trailing `c` characters (`trim_end_matches`).
pub open spec fn trim_trailing(s: Seq<char>, c: char) -> Seq<char>
    decreases s.len(),
{
    if s.len() > 0 && s.last() == c {
        trim_trailing(s.drop_last(), c)
    } else {
        s
    }
}

/// `ws://host:port` with the host's trailing dots removed.
pub open spec fn ws_url_of(host: Seq<char>, port: u16) -> Seq<char> {
    "ws://"@ + trim_trailing(host, '.') + seq![':'] + decimal_digits(port as nat)
}

/// WebSocket URL of a resolved service: `ws://host:port`.
pub fn choir_ws_url(host: &str, port: u16) -> (r: String)
    ensures
        r@ == ws_url_of(host@, port),
{
    let h = str_to_chars(host);
    let mut end: usize = h.len();
    assert(h@.take(end as int) == h@);
    while end > 0 && h[end - 1] == '.'
        invariant
            end <= h@.len(),
            trim_trailing(h@, '.') == trim_trailing(h@.take(end as int), '.'),
        decreases end,
    {
        proof {
            assert(h@.take(end as int).drop_last() == h@.take(end - 1));
        }
        end = end - 1;
    }
    proof {
        if end > 0 {
            assert(h@.take(end as int).last() == h@[end - 1]);
        }
        assert(trim_trailing(h@.take(end as int), '.') == h@.take(end as int));
    }
    let mut out: Vec<char> = vec!['w', 's', ':', '/', '/'];
    proof {
        reveal_strlit("ws://");
        assert(out@ == "ws://"@);
    }
    let mut k: usize = 0;
    while k < end
        invariant
            k <= end <= h@.len(),
            out@ == "ws://"@ + h@.take(k as int),
        decreases end - k,
    {
        out.push(h[k]);
        k = k + 1;
        assert(out@ =~= "ws://"@ + h@.take(k as int));
    }
    out.push(':');
    push_decimal(&mut out, port as u32);
    assert(out@ =~= ws_url_of(host@, port));
    chars_to_string(&out)
}

/// The choir that an mDNS resolution names: its instance name and URL.
pub fn resolved_choir(fullname: &str, host: &str, port: u16) -> (r: ResolvedChoir)
    ensures
        r.choir_name@ == instance_name(fullname@),
        r.ws_url@ == ws_url_of(host@, port),
{
    ResolvedChoir { choir_name: instance_name_from_fullname(fullname), ws_url: choir_ws_url(host, port) }
}

/// The URL of a resolved service when it is the choir looked for.
pub fn resolve_match(fullname: &str, host: &str, port: u16, wanted: &str) -> (r: Option<String>)
    ensures
        match r {
            Some(u) => instance_name(fullname@) == wanted@ && u@ == ws_url_of(host@, port),
            None => instance_name(fullname@) != wanted@,
        },
{
    let name = instance_name_from_fullname(fullname);
    let a = str_to_chars(name.as_str());
    let b = str_to_chars(wanted);
    if crate::text::eq_chars(&a, &b) {
        Some(choir_ws_url(host, port))
    } else {
        None
    }
}

// ─── Server: one connected member ─────────────────────────────────────────

/// Where the server is in its conversation with one member.
#[derive(Debug, Clone, Copy, PartialEq, Eq, Structural)]
pub enum ServerPhase {
    /// Waiting for a valid join request
    AwaitingJoin,
    /// Past the join exchange: commands are relayed
    Relaying,
}

/// A frame received from a member, as the caller read it off the socket.
pub enum ClientFrame {
    /// A text frame, with what it reads as (JSON) where it does
    Text { join: Option<JoinRequest>, command: Option<CommandMessage> },
    /// A close frame, with the frame's debug text
    Close { detail: String },
    /// A read error, with its message
    ReadError { detail: String },
    /// The stream ended
    End,
    /// Any other frame (binary, ping, pong)
    Other,
}

/// What the server does with a member's frame.
pub enum ServerAction {
    /// Nothing to do; keep reading
    Continue,
    /// Send this join response to the member
    Reply(JoinResponse),
    /// Send this command to every member, the sender included
    Broadcast(CommandMessage),
    /// Record the reason, remove the member and stop reading
    Disconnect { reason: String },
}

/// Spec view of a join response: (type, message).
pub open spec fn response_view(r: JoinResponse) -> (Seq<char>, Option<Seq<char>>) {
    (r.typ@, match r.message { Some(m) => Some(m@), None => None })
}

/// Whether `action` is the reply `(typ, message)`.
pub open spec fn is_reply(action: ServerAction, typ: Seq<char>, message: Option<Seq<char>>) -> bool {
    action matches ServerAction::Reply(r) && response_view(r) == (typ, message)
}

/// Whether `action` broadcasts a command equal to `c`.
pub open spec fn is_broadcast_of(action: ServerAction, c: CommandMessage) -> bool {
    action matches ServerAction::Broadcast(b) && b.typ@ == c.typ@ && b.command@ == c.command@
        && b.execute_at == c.execute_at
}

/// Whether `action` disconnects with the given reason.
pub open spec fn is_disconnect(action: ServerAction, reason: Seq<char>) -> bool {
    action matches ServerAction::Disconnect { reason: r } && r@ == reason
}

fn concat_str(a: &str, b: &str) -> (r: String)
    ensures
        r@ == a@ + b@,
{
    let mut s = String::from_str(a);
    s.append(b);
    s
}

fn copy_string(s: &String) -> (r: String)
    ensures
        r@ == s@,
{
    String::from_str(s.as_str())
}

fn copy_command(c: &CommandMessage) -> (r: CommandMessage)
    ensures
        r.typ@ == c.typ@,
        r.command@ == c.command@,
        r.execute_at == c.execute_at,
{
    CommandMessage { typ: copy_string(&c.typ), command: copy_string(&c.command), execute_at: c.execute_at }
}

/// The server's step from `phase` on `frame` (see `server_step`): the next
/// phase and the action.
pub open spec fn server_step_spec(
    phase: ServerPhase,
    choir_name: Seq<char>,
    password: Seq<char>,
    frame: ClientFrame,
    next: ServerPhase,
    action: ServerAction,
) -> bool {
    &&& (phase == ServerPhase::AwaitingJoin ==> match frame {
            ClientFrame::Text { join, command } => match join {
                None => next == ServerPhase::AwaitingJoin && is_reply(
                    action,
                    "join_err"@,
                    Some("invalid message"@),
                ),
                Some(j) => if j.typ@ != "join"@ {
                    next == ServerPhase::AwaitingJoin && is_reply(
                        action,
                        "join_err"@,
                        Some("first message must be join"@),
                    )
                } else if j.choir_name@ != choir_name || j.password@ != password {
                    next == ServerPhase::AwaitingJoin && is_reply(
                        action,
                        "join_err"@,
                        Some("invalid choir name or password"@),
                    )
                } else {
                    next == ServerPhase::Relaying && is_reply(action, "join_ok"@, None)
                },
            },
            ClientFrame::Other => next == ServerPhase::AwaitingJoin && action is Continue,
            _ => next == ServerPhase::Relaying && action is Continue,
        })
    &&& (phase == ServerPhase::Relaying ==> next == ServerPhase::Relaying && match frame {
            ClientFrame::Text { join, command } => match command {
                Some(c) => if c.typ@ == "command"@ {
                    is_broadcast_of(action, c)
                } else {
                    action is Continue
                },
                None => action is Continue,
            },
            ClientFrame::Close { detail } => is_disconnect(action, "Close frame: "@ + detail@),
            ClientFrame::ReadError { detail } => is_disconnect(
                action,
                "WebSocket read error: "@ + detail@,
            ),
            ClientFrame::End => is_disconnect(action, "stream ended (client closed or TCP closed)"@),
            ClientFrame::Other => action is Continue,
        })
}

/// One step of the server's conversation with a member.
///
/// Before the join: a text frame that is not a join request is answered
/// "invalid message", a request of another type "first message must be
/// join", a wrong choir name or password "invalid choir name or password";
/// a matching request is answered "join_ok" and commands are relayed from
/// then on. A close frame, a read error or the end of the stream also ends
/// the join exchange. Afterwards every text frame that is a message of
/// type "command" is broadcast; other frames are ignored, and a close
/// frame, a read error or the end of the stream disconnects the member.
pub fn server_step(phase: ServerPhase, choir_name: &str, password: &str, frame: &ClientFrame) -> (r: (
    ServerPhase,
    ServerAction,
))
    ensures
        server_step_spec(phase, choir_name@, password@, *frame, r.0, r.1),

{
    match phase {
        ServerPhase::AwaitingJoin => match frame {
            ClientFrame::Text { join, command: _ } => match join {
                None => (
                    ServerPhase::AwaitingJoin,
                    ServerAction::Reply(JoinResponse::err(String::from_str("invalid message"))),
                ),
                Some(j) => {
                    if !crate::text::str_eq(j.typ.as_str(), "join") {
                        (
                            ServerPhase::AwaitingJoin,
                            ServerAction::Reply(
                                JoinResponse::err(String::from_str("first message must be join")),
                            ),
                        )
                    } else if !crate::text::str_eq(j.choir_name.as_str(), choir_name)
                        || !crate::text::str_eq(j.password.as_str(), password) {
                        (
                            ServerPhase::AwaitingJoin,
                            ServerAction::Reply(
                                JoinResponse::err(String::from_str("invalid choir name or password")),
                            ),
                        )
                    } else {
                        (ServerPhase::Relaying, ServerAction::Reply(JoinResponse::ok()))
                    }
                },
            },
            ClientFrame::Other => (ServerPhase::AwaitingJoin, ServerAction::Continue),
            _ => (ServerPhase::Relaying, ServerAction::Continue),
        },
        ServerPhase::Relaying => match frame {
            ClientFrame::Text { join: _, command } => match command {
                Some(c) => {
                    if crate::text::str_eq(c.typ.as_str(), "command") {
                        (ServerPhase::Relaying, ServerAction::Broadcast(copy_command(c)))
                    } else {
                        (ServerPhase::Relaying, ServerAction::Continue)
                    }
                },
                None => (ServerPhase::Relaying, ServerAction::Continue),
            },
            ClientFrame::Close { detail } => (
                ServerPhase::Relaying,
                ServerAction::Disconnect { reason: concat_str("Close frame: ", detail.as_str()) },
            ),
            ClientFrame::ReadError { detail } => (
                ServerPhase::Relaying,
                ServerAction::Disconnect {
                    reason: concat_str("WebSocket read error: ", detail.as_str()),
                },
            ),
            ClientFrame::End => (
                ServerPhase::Relaying,
                ServerAction::Disconnect {
                    reason: String::from_str("stream ended (client closed or TCP closed)"),
                },
            ),
            ClientFrame::Other => (ServerPhase::Relaying, ServerAction::Continue),
        },
    }
}

/// Whether a frame ends the member's stream: a close frame, a read error or
/// the end of the stream.
pub open spec fn ends_stream(f: ClientFrame) -> bool {
    f is Close || f is ReadError || f is End
}

proof fn lemma_relaying_has_cause(
    choir_name: Seq<char>,
    password: Seq<char>,
    frames: Seq<ClientFrame>,
    phases: Seq<ServerPhase>,
    actions: Seq<ServerAction>,
    m: int,
)
    requires
        phases.len() == frames.len() + 1,
        actions.len() == frames.len(),
        phases[0] == ServerPhase::AwaitingJoin,
        forall|i: int|
            0 <= i < frames.len() ==> server_step_spec(
                phases[i],
                choir_name,
                password,
                #[trigger] frames[i],
                phases[i + 1],
                actions[i],
            ),
        0 <= m < phases.len(),
        phases[m] == ServerPhase::Relaying,
    ensures
        exists|j: int| 0 <= j < m && (is_reply(#[trigger] actions[j], "join_ok"@, None) || ends_stream(frames[j])),
    decreases m,
{
    let p = m - 1;
    assert(server_step_spec(phases[p], choir_name, password, frames[p], phases[p + 1], actions[p]));
    if phases[p] == ServerPhase::Relaying {
        lemma_relaying_has_cause(choir_name, password, frames, phases, actions, p);
        let j = choose|j: int| 0 <= j < p && (is_reply(#[trigger] actions[j], "join_ok"@, None) || ends_stream(frames[j]));
        assert(0 <= j < m);
    } else {
        assert(is_reply(actions[p], "join_ok"@, None) || ends_stream(frames[p]));
    }
}

/// Law: over any run of server steps from the start of a conversation, a
/// member's command is broadcast only after the server answered its join
/// with "join_ok", or after its stream failed or closed (a frame read after
/// that is relayed as the code reads it).
pub proof fn lemma_broadcast_only_after_join(
    choir_name: Seq<char>,
    password: Seq<char>,
    frames: Seq<ClientFrame>,
    phases: Seq<ServerPhase>,
    actions: Seq<ServerAction>,
    k: int,
)
    requires
        phases.len() == frames.len() + 1,
        actions.len() == frames.len(),
        phases[0] == ServerPhase::AwaitingJoin,
        forall|i: int|
            0 <= i < frames.len() ==> server_step_spec(
                phases[i],
                choir_name,
                password,
                #[trigger] frames[i],
                phases[i + 1],
                actions[i],
            ),
        0 <= k < frames.len(),
        actions[k] is Broadcast,
    ensures
        exists|j: int| 0 <= j < k && (is_reply(#[trigger] actions[j], "join_ok"@, None) || ends_stream(frames[j])),
{
    assert(server_step_spec(phases[k], choir_name, password, frames[k], phases[k + 1], actions[k]));
    assert(phases[k] == ServerPhase::Relaying);
    lemma_relaying_has_cause(choir_name, password, frames, phases, actions, k);
}

// ─── Member: joining and receiving ────────────────────────────────────────

/// The first frame a member receives after sending its join request.
pub enum JoinReply {
    /// A text frame, with the join response it reads as, if any
    Text(Option<JoinResponse>),
    /// No text frame came (another frame, an error or the end)
    Missing,
}

/// Outcome of the join exchange: `Ok` on "join_ok"; otherwise the error
/// message: "no join response", "invalid join response", the server's
/// message, or "join failed" when it gave none.
pub fn join_outcome(reply: &JoinReply) -> (r: Result<(), String>)
    ensures
        match *reply {
            JoinReply::Missing => r matches Err(e) && e@ == "no join response"@,
            JoinReply::Text(None) => r matches Err(e) && e@ == "invalid join response"@,
            JoinReply::Text(Some(resp)) => if resp.typ@ == "join_ok"@ {
                r is Ok
            } else {
                match resp.message {
                    Some(m) => r matches Err(e) && e@ == m@,
                    None => r matches Err(e) && e@ == "join failed"@,
                }
            },
        },
{
    match reply {
        JoinReply::Missing => Err(String::from_str("no join response")),
        JoinReply::Text(None) => Err(String::from_str("invalid join response")),
        JoinReply::Text(Some(resp)) => {
            if crate::text::str_eq(resp.typ.as_str(), "join_ok") {
                Ok(())
            } else {
                match &resp.message {
                    Some(m) => Err(copy_string(m)),
                    None => Err(String::from_str("join failed")),
                }
            }
        },
    }
}

/// A frame a member receives from the server after joining.
pub enum ServerFrame {
    /// A text frame, with the command message it reads as, if any
    Text(Option<CommandMessage>),
    /// A close frame
    Close,
    /// A read error
    Error,
    /// Any other frame
    Other,
}

/// What a member does with a frame from the server.
pub enum MemberAction {
    /// Queue this command for the app
    Deliver(ScheduledCommand),
    /// Keep reading
    Continue,
    /// Stop receiving
    Stop,
}

/// A member's reaction to a server frame: command messages are queued,
/// a close frame or an error stops the receiver, anything else is ignored.
pub fn member_on_frame(frame: &ServerFrame) -> (r: MemberAction)
    ensures
        match *frame {
            ServerFrame::Text(Some(c)) => if c.typ@ == "command"@ {
                r matches MemberAction::Deliver(s) && s.command@ == c.command@ && s.execute_at_ms
                    == c.execute_at
            } else {
                r is Continue
            },
            ServerFrame::Text(None) => r is Continue,
            ServerFrame::Close => r is Stop,
            ServerFrame::Error => r is Stop,
            ServerFrame::Other => r is Continue,
        },
{
    match frame {
        ServerFrame::Text(Some(c)) => {
            if crate::text::str_eq(c.typ.as_str(), "command") {
                MemberAction::Deliver(
                    ScheduledCommand { command: copy_string(&c.command), execute_at_ms: c.execute_at },
                )
            } else {
                MemberAction::Continue
            }
        },
        ServerFrame::Text(None) => MemberAction::Continue,
        ServerFrame::Close => MemberAction::Stop,
        ServerFrame::Error => MemberAction::Stop,
        ServerFrame::Other => MemberAction::Continue,
    }
}

/// Which part of a member's connection ended first.
#[derive(Debug, Clone, Copy, PartialEq, Eq, Structural)]
pub enum MemberExit {
    /// The sender (its command queue closed or a send failed)
    SendLoop,
    /// The receiver (the stream closed or failed)
    RecvLoop,
    /// The app asked to leave
    Shutdown,
}

/// The exit reason recorded when a member's connection ends.
pub open spec fn exit_reason(e: MemberExit) -> Seq<char> {
    match e {
        MemberExit::SendLoop => "send_loop ended (send_cmd_rx closed or ws_sender failed)"@,
        MemberExit::RecvLoop => "recv_loop ended (WebSocket stream closed or error)"@,
        MemberExit::Shutdown => "shutdown received (clientLeave called)"@,
    }
}

/// The exit reason recorded when a member's connection ends.
pub fn member_exit_reason(e: MemberExit) -> (r: String)
    ensures
        r@ == exit_reason(e),
{
    match e {
        MemberExit::SendLoop => String::from_str("send_loop ended (send_cmd_rx closed or ws_sender failed)"),
        MemberExit::RecvLoop => String::from_str("recv_loop ended (WebSocket stream closed or error)"),
        MemberExit::Shutdown => String::from_str("shutdown received (clientLeave called)"),
    }
}

// ─── Clock ────────────────────────────────────────────────────────────────

#[verifier::external_type_specification]
#[verifier::external_body]
pub struct ExSystemTime(std::time::SystemTime);

/// `SystemTime::now`: the current wall-clock time. Nothing is stated of it.
#[verifier::external_body]
fn system_time_now() -> (t: std::time::SystemTime) {
    std::time::SystemTime::now()
}

/// `SystemTime::duration_since(UNIX_EPOCH)`: the time elapsed since the
/// Unix epoch, `None` when the clock reads earlier. Nothing is stated of
/// the duration.
#[verifier::external_body]
fn since_unix_epoch(t: &std::time::SystemTime) -> (d: Option<core::time::Duration>) {
    t.duration_since(std::time::UNIX_EPOCH).ok()
}

/// `Duration::as_millis`: whole milliseconds of a duration. Nothing is
/// stated of the number.
#[verifier::external_body]
fn duration_millis(d: &core::time::Duration) -> (ms: u128) {
    d.as_millis()
}

/// Unix milliseconds from the whole milliseconds elapsed since the epoch
/// (`None` when the clock reads before it, which counts as 0); the count is
/// truncated to `i64`.
pub open spec fn unix_ms_of(elapsed_ms: Option<u128>) -> i64 {
    match elapsed_ms {
        Some(m) => m as i64,
        None => 0,
    }
}

/// Unix milliseconds from a reading of the clock: the whole milliseconds
/// since the epoch truncated to `i64`, 0 for a reading before the epoch.
pub fn unix_ms_from_elapsed(elapsed_ms: Option<u128>) -> (ms: i64)
    ensures
        ms == unix_ms_of(elapsed_ms),
{
    match elapsed_ms {
        Some(m) => m as i64,
        None => 0,
    }
}

/// Current time as Unix milliseconds (0 when the clock reads before the
/// epoch); the millisecond count is truncated to `i64`. The value is the
/// clock's, so no clause states it: what is done with the reading is
/// `unix_ms_from_elapsed`.
pub fn unix_time_ms() -> (ms: i64) {
    let now = system_time_now();
    let elapsed: Option<u128> = match since_unix_epoch(&now) {
        Some(d) => Some(duration_millis(&d)),
        None => None,
    };
    unix_ms_from_elapsed(elapsed)
}

} // verus!
