//! Agent-to-agent messages: what a node answers, and how messages are framed.
//!
//! Framing is newline-delimited JSON, one message per line. A message is
//! written without embedded newlines, so this frames unambiguously.

use vstd::prelude::*;
use vstd::string::StringExecFns;

use crate::error::RrfError;
use crate::json::{json_quoted, quote};
use crate::order::same_text;
use crate::text::{blank, is_blank, lemma_find, lines_of, pieces, without_cr};

verus! {

/// A node's id.
#[derive(Debug)]
pub struct NodeId {
    pub name: String,
}

impl NodeId {
    /// The id with a name.
    pub fn new(name: &str) -> (r: NodeId)
        ensures
            r.name@ == name@,
    {
        NodeId { name: name.to_string() }
    }

    /// The name.
    pub fn as_str(&self) -> (r: &str)
        ensures
            r@ == self.name@,
    {
        self.name.as_str()
    }
}

/// One message between nodes.
#[derive(Debug)]
pub struct Message {
    pub from: String,
    pub to: String,
    pub verb: String,
    /// JSON text.
    pub body: String,
}

/// One message between nodes.
pub struct MessageView {
    pub from: Seq<char>,
    pub to: Seq<char>,
    pub verb: Seq<char>,
    pub body: Seq<char>,
}

impl View for Message {
    type V = MessageView;

    open spec fn view(&self) -> MessageView {
        MessageView { from: self.from@, to: self.to@, verb: self.verb@, body: self.body@ }
    }
}

/// The reply to a message: back to its sender.
pub open spec fn reply_to(m: MessageView, body: Seq<char>) -> MessageView {
    MessageView { from: m.to, to: m.from, verb: m.verb, body }
}

impl Message {
    /// A request.
    pub fn request(from: &str, to: &str, verb: &str, body: &str) -> (r: Message)
        ensures
            r@ == (MessageView { from: from@, to: to@, verb: verb@, body: body@ }),
    {
        Message {
            from: from.to_string(),
            to: to.to_string(),
            verb: verb.to_string(),
            body: body.to_string(),
        }
    }

    /// The reply to the message: back to its sender.
    pub fn reply(&self, body: String) -> (r: Message)
        ensures
            r@ == reply_to(self@, body@),
    {
        Message { from: self.to.clone(), to: self.from.clone(), verb: self.verb.clone(), body }
    }
}

/// A node's behaviour: answer (or ignore) inbound messages.
///
/// The engine implements this to expose recall and classification over the
/// network; a bare node might implement `ping`. `Ok(None)` means "no reply".
pub trait Handler {
    /// Handles one message, optionally producing a reply.
    fn handle(&self, msg: Message) -> Result<Option<Message>, RrfError>;
}

/// The verb of a liveness probe.
pub const PING: &'static str = "ping";

/// What a node answers to a liveness probe: that it is there, and who it is.
pub open spec fn pong_body(me: Seq<char>) -> Seq<char> {
    "{\"node\":"@ + json_quoted(me) + ",\"pong\":true}"@
}

/// What a node answers to a liveness probe.
pub fn pong(me: &str) -> (r: String)
    ensures
        r@ == pong_body(me@),
{
    let mut body = "{\"node\":".to_string();
    let name = quote(me);
    body.append(name.as_str());
    body.append(",\"pong\":true}");
    body
}

/// A trivial handler that replies to `ping` with `pong` and ignores the rest.
/// Useful as a liveness endpoint and as a test double.
#[derive(Debug)]
pub struct PingHandler {
    /// This node's id.
    pub me: NodeId,
}

impl Handler for PingHandler {
    fn handle(&self, msg: Message) -> (r: Result<Option<Message>, RrfError>)
        ensures
            if msg.verb@ == PING@ {
                r matches Ok(Some(m)) && m@ == reply_to(msg@, pong_body(self.me.name@))
            } else {
                r matches Ok(None)
            },
    {
        if same_text(msg.verb.as_str(), PING) {
            let body = pong(self.me.as_str());
            Ok(Some(msg.reply(body)))
        } else {
            Ok(None)
        }
    }
}

// ---- framing -------------------------------------------------------------------------

/// A message's text, framed: ended by a newline.
pub fn frame(text: &str) -> (r: String)
    ensures
        r@ == text@.push('\n'),
{
    let mut out = text.to_string();
    out.push('\n');
    out
}

/// Whether a received line holds a message: blank lines are passed over.
pub fn holds_message(line: &str) -> (r: bool)
    ensures
        r == !blank(line@),
{
    !is_blank(line)
}

/// The texts, framed one after the other.
pub open spec fn stream_of(msgs: Seq<Seq<char>>) -> Seq<char>
    decreases msgs.len(),
{
    if msgs.len() == 0 {
        seq![]
    } else {
        msgs[0].push('\n') + stream_of(msgs.drop_first())
    }
}

/// The text fits on a line: it holds no newline, and ends in no carriage return.
pub open spec fn one_line(s: Seq<char>) -> bool {
    !s.contains('\n') && (s.len() > 0 ==> s.last() != '\r')
}

proof fn lemma_pieces_of_stream(msgs: Seq<Seq<char>>)
    requires
        forall|i: int| 0 <= i < msgs.len() ==> one_line(#[trigger] msgs[i]),
    ensures
        pieces(stream_of(msgs), '\n') == msgs.push(Seq::<char>::empty()),
    decreases msgs.len(),
{
    let s = stream_of(msgs);
    if msgs.len() == 0 {
        lemma_find(s, '\n', 0);
        assert(pieces(s, '\n') =~= msgs.push(Seq::<char>::empty()));
    } else {
        let m = msgs[0];
        let rest = msgs.drop_first();
        assert forall|i: int| 0 <= i < rest.len() implies one_line(#[trigger] rest[i]) by {
            assert(one_line(msgs[i + 1]));
        }
        lemma_pieces_of_stream(rest);
        let n = m.len() as int;
        assert(one_line(msgs[0]));
        assert forall|i: int| 0 <= i < n implies s[i] != '\n' by {
            assert(s[i] == m[i]);
            assert(m.contains(m[i]));
        }
        assert(s[n] == '\n');
        lemma_find(s, '\n', n);
        assert(s.take(n) =~= m);
        assert(s.skip(n + 1) =~= stream_of(rest));
        assert(pieces(s, '\n') =~= seq![m] + pieces(stream_of(rest), '\n'));
        assert(msgs.push(Seq::<char>::empty()) =~= seq![m] + rest.push(Seq::<char>::empty()));
    }
}

/// Framing is unambiguous: the lines of a stream are the texts that were
/// framed, each once and in order.
pub proof fn law_frames_are_read_back(msgs: Seq<Seq<char>>)
    requires
        forall|i: int| 0 <= i < msgs.len() ==> one_line(#[trigger] msgs[i]),
    ensures
        lines_of(stream_of(msgs)) == msgs,
{
    lemma_pieces_of_stream(msgs);
    let p = pieces(stream_of(msgs), '\n');
    assert(p.drop_last() =~= msgs);
    assert forall|i: int| 0 <= i < msgs.len() implies without_cr(msgs[i]) == msgs[i] by {
        assert(one_line(msgs[i]));
    }
    assert(p.last().len() == 0);
    assert(lines_of(stream_of(msgs)) =~= msgs);
}

/// A message says all that it holds.
pub proof fn law_messages_hold_every_field(m: Message)
    ensures
        m@.from == m.from@,
        m@.to == m.to@,
        m@.verb == m.verb@,
        m@.body == m.body@,
{
}

/// A reply goes back: from the receiver to the sender, under the verb of the
/// message, with the body that was given. The reply to a reply goes where the
/// message went.
pub proof fn law_replies_go_back(m: MessageView, body: Seq<char>, again: Seq<char>)
    ensures
        reply_to(m, body).from == m.to,
        reply_to(m, body).to == m.from,
        reply_to(m, body).verb == m.verb,
        reply_to(m, body).body == body,
        reply_to(reply_to(m, body), again).from == m.from,
        reply_to(reply_to(m, body), again).to == m.to,
{
}

/// The answer to a liveness probe is a JSON object with the quoted name of the
/// node under `node`, and `true` under `pong`.
pub proof fn law_pong_names_the_node(me: Seq<char>)
    ensures
        pong_body(me) == "{\"node\":"@ + json_quoted(me) + ",\"pong\":true}"@,
        pong_body(me).len() > json_quoted(me).len() + 2,
        pong_body(me)[0] == '{',
        pong_body(me).last() == '}',
{
    reveal_strlit("{\"node\":");
    reveal_strlit(",\"pong\":true}");
}

} // verus!
