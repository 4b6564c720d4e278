//! Exposes the flow to peers: which message asks for what.

use vstd::prelude::*;
use vstd::string::StringExecFns;

use crate::error::RrfError;
use crate::json::{is_json, json_member, member_string};
use crate::net::{pong, pong_body, reply_to, Message, NodeId, PING};
use crate::number::{decimal, format_u64};
use crate::order::same_text;

verus! {

/// What a message asks of the node.
#[derive(Debug)]
pub enum Task {
    /// Nothing more: this is the reply.
    Reply(Message),
    /// A pass for the query; its outcome is the reply.
    Ask(String),
    /// A pass for the query; its map is the reply.
    Chart(String),
    /// The documents in the message's body are indexed; the new total is the
    /// reply.
    Index,
    /// Nothing, and there is no reply.
    Ignore,
}

/// The query in a message's body: its member `query`, if that is a string, and
/// otherwise nothing.
pub open spec fn query_in(body: Seq<char>) -> Seq<char> {
    match json_member(body, "query"@) {
        Some(q) => q,
        None => ""@,
    }
}

/// The node asks for a pass.
pub open spec fn asks_pass(verb: Seq<char>) -> bool {
    verb == "ask"@ || verb == "recall"@
}

/// A network-facing node.
#[derive(Debug)]
pub struct FlowNode {
    me: NodeId,
}

fn query_of(body: &str) -> (r: Result<String, RrfError>)
    ensures
        is_json(body@) ==> (r matches Ok(q) && q@ == query_in(body@)),
        !is_json(body@) ==> (r matches Err(RrfError::Json(_))),
{
    match member_string(body, "query") {
        Ok(Some(q)) => Ok(q),
        Ok(None) => Ok("".to_string()),
        Err(e) => Err(RrfError::Json(e)),
    }
}

impl FlowNode {
    /// The node's name.
    pub closed spec fn name(&self) -> Seq<char> {
        self.me.name@
    }

    /// An addressable node.
    pub fn new(me: NodeId) -> (r: FlowNode)
        ensures
            r.name() == me.name@,
    {
        FlowNode { me }
    }

    /// What a message asks of the node.
    pub fn route(&self, msg: &Message) -> (r: Result<Task, RrfError>)
        ensures
            ({
                let verb = msg.verb@;
                if verb == PING@ {
                    r matches Ok(Task::Reply(m)) && m@ == reply_to(msg@, pong_body(self.name()))
                } else if asks_pass(verb) {
                    if is_json(msg.body@) {
                        r matches Ok(Task::Ask(q)) && q@ == query_in(msg.body@)
                    } else {
                        r matches Err(RrfError::Json(_))
                    }
                } else if verb == "map"@ {
                    if is_json(msg.body@) {
                        r matches Ok(Task::Chart(q)) && q@ == query_in(msg.body@)
                    } else {
                        r matches Err(RrfError::Json(_))
                    }
                } else if verb == "index"@ {
                    r matches Ok(Task::Index)
                } else {
                    r matches Ok(Task::Ignore)
                }
            }),
    {
        let verb = msg.verb.as_str();
        if same_text(verb, PING) {
            let body = pong(self.me.as_str());
            return Ok(Task::Reply(msg.reply(body)));
        }
        if same_text(verb, "ask") || same_text(verb, "recall") {
            return match query_of(msg.body.as_str()) {
                Ok(q) => Ok(Task::Ask(q)),
                Err(e) => Err(e),
            };
        }
        if same_text(verb, "map") {
            return match query_of(msg.body.as_str()) {
                Ok(q) => Ok(Task::Chart(q)),
                Err(e) => Err(e),
            };
        }
        if same_text(verb, "index") {
            return Ok(Task::Index);
        }
        Ok(Task::Ignore)
    }

    /// The reply to a message that asked for indexing: the new total.
    pub fn indexed(&self, msg: &Message, total: usize) -> (r: Message)
        ensures
            r@ == reply_to(msg@, "{\"total\":"@ + decimal(total as nat) + "}"@),
    {
        let mut body = "{\"total\":".to_string();
        let n = format_u64(total as u64);
        body.append(n.as_str());
        body.append("}");
        msg.reply(body)
    }
}

/// What is asked for is the `query` of the body where that is a string, and
/// nothing otherwise.
pub proof fn law_query_is_the_member(body: Seq<char>)
    ensures
        json_member(body, "query"@) is Some ==> query_in(body) == json_member(body, "query"@)->0,
        json_member(body, "query"@) is None ==> query_in(body).len() == 0,
{
    reveal_strlit("");
}

/// A pass is asked for by `ask` and by `recall`, and by no other verb.
pub proof fn law_two_verbs_ask_for_a_pass(verb: Seq<char>)
    ensures
        asks_pass(verb) <==> verb == seq!['a', 's', 'k'] || verb == seq![
            'r',
            'e',
            'c',
            'a',
            'l',
            'l',
        ],
{
    reveal_strlit("ask");
    reveal_strlit("recall");
    assert("ask"@ =~= seq!['a', 's', 'k']);
    assert("recall"@ =~= seq!['r', 'e', 'c', 'a', 'l', 'l']);
}

} // verus!
