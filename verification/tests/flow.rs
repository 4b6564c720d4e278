use reason_ready::engine::EmbeddedEngine;
use reason_ready::error::RrfError;
use reason_ready::flow::{
    model_names, records_to_upsert, texts_to_embed, Answer, AskPass, FlowBuilder, FlowConfig, Next,
    ReasonReadyFlow, Request,
};
use reason_ready::model::{Candidate, Document};
use reason_ready::net::{frame, holds_message, Handler, Message, NodeId, PingHandler};
use reason_ready::node::{FlowNode, Task};
use reason_ready::serve::ServeOptions;
use reason_ready::text::lines;

#[test]
fn tcp_ping_pong() {
    let handler = PingHandler { me: NodeId::new("server") };
    let request = Message::request("client", "server", "ping", "{}");
    let reply = handler.handle(request).unwrap().unwrap();
    let body: serde_json::Value = serde_json::from_str(&reply.body).unwrap();
    assert_eq!(body["pong"], serde_json::Value::Bool(true));
    assert_eq!(body["node"], serde_json::Value::from("server"));
    assert_eq!((reply.from.as_str(), reply.to.as_str()), ("server", "client"));
    let other = Message::request("client", "server", "ask", "{}");
    assert!(handler.handle(other).unwrap().is_none());
}

#[test]
fn a_node_name_is_quoted_in_its_pong() {
    let handler = PingHandler { me: NodeId::new("a\"b\n\\") };
    let reply = handler.handle(Message::request("c", "s", "ping", "{}")).unwrap().unwrap();
    assert!(!reply.body.contains('\n'));
    let body: serde_json::Value = serde_json::from_str(&reply.body).unwrap();
    assert_eq!(body["node"], serde_json::Value::from("a\"b\n\\"));
}

#[test]
fn frames_are_read_back() {
    let messages = ["{\"a\":1}", "", "[\"x y\"]"];
    let stream: String = messages.iter().map(|m| frame(m)).collect();
    assert_eq!(lines(&stream), messages.to_vec());
    assert!(holds_message("{}"));
    assert!(!holds_message(" \t\r"));
}

fn route(verb: &str, body: &str) -> Result<Task, RrfError> {
    FlowNode::new(NodeId::new("me")).route(&Message::request("c", "me", verb, body))
}

#[test]
fn a_node_answers_by_verb() {
    assert!(matches!(route("ping", "{}"), Ok(Task::Reply(m)) if m.to == "c"));
    assert!(matches!(route("ask", "{\"query\":\"why?\"}"), Ok(Task::Ask(q)) if q == "why?"));
    assert!(matches!(route("recall", "{\"query\":\"why?\"}"), Ok(Task::Ask(q)) if q == "why?"));
    assert!(matches!(route("map", "{\"query\":\"\\u00e9\"}"), Ok(Task::Chart(q)) if q == "é"));
    assert!(matches!(route("index", "{}"), Ok(Task::Index)));
    assert!(matches!(route("dance", "{}"), Ok(Task::Ignore)));
    // A query that is missing or no string is empty.
    assert!(matches!(route("ask", "{}"), Ok(Task::Ask(q)) if q.is_empty()));
    assert!(matches!(route("ask", "{\"query\":7}"), Ok(Task::Ask(q)) if q.is_empty()));
    assert!(matches!(route("ask", "[]"), Ok(Task::Ask(q)) if q.is_empty()));
    assert!(matches!(route("ask", "{"), Err(RrfError::Json(_))));
    assert!(matches!(route("map", ""), Err(RrfError::Json(_))));
}

#[test]
fn an_index_reply_holds_the_total() {
    let node = FlowNode::new(NodeId::new("me"));
    let reply = node.indexed(&Message::request("c", "me", "index", "{}"), 120);
    assert_eq!(reply.body, "{\"total\":120}");
    assert_eq!((reply.from.as_str(), reply.to.as_str()), ("me", "c"));
}

#[test]
fn flows_are_built_with_defaults() {
    let b: FlowBuilder<u8, u8, u8, u8> = ReasonReadyFlow::<u8, u8, u8, u8>::builder();
    let flow = b.embedder(1).reranker(3).build(10, 20, 30, 40);
    assert_eq!((flow.embedder, flow.recall, flow.reranker, flow.classifier), (1, 20, 3, 40));
    assert_eq!(*flow.config(), FlowConfig { recall_k: 20, rerank_k: 5 });
    assert_eq!(FlowConfig::default(), *flow.config());

    let wide = FlowConfig { recall_k: 7, rerank_k: 2 };
    let flow = FlowBuilder::new().recall(2).classifier(4).config(wide).build(10, 20, 30, 40);
    assert_eq!((flow.embedder, flow.recall, flow.reranker, flow.classifier), (10, 2, 30, 4));
    assert_eq!(*flow.config(), wide);
    let flow = FlowBuilder::default().build("e", "r", "k", "c");
    assert_eq!((flow.embedder, flow.classifier), ("e", "c"));
}

#[test]
fn stages_report_their_models() {
    let names = model_names("det", "lex", "heur");
    let got: Vec<(&str, &str)> = names.iter().map(|(a, b)| (*a, b.as_str())).collect();
    assert_eq!(
        got,
        vec![
            ("embedder", "det"),
            ("recall", "flat-cosine"),
            ("reranker", "lex"),
            ("classifier", "heur"),
        ]
    );
}

fn cand(id: &str) -> Candidate {
    Candidate::new(id.to_string(), "text".to_string(), 1.0f32.to_bits())
}

#[test]
fn a_pass_asks_each_component_in_turn() {
    let config = FlowConfig { recall_k: 9, rerank_k: 4 };
    let (pass, request) = AskPass::begin("why?", config);
    assert!(matches!(request, Request::Embed { query } if query == "why?"));

    let pass = match pass.take::<bool>(Ok(Answer::Embedded(vec![1, 2]))).unwrap() {
        Next::Ask(p, Request::Recall { query, vector, top_k }) => {
            assert_eq!((query.as_str(), vector, top_k), ("why?", vec![1, 2], 9));
            p
        }
        _ => panic!("the store is next"),
    };
    let pass = match pass.take::<bool>(Ok(Answer::Recalled(vec![cand("a"), cand("b")]))).unwrap() {
        Next::Ask(p, Request::Rerank { candidates, top_k, .. }) => {
            assert_eq!((candidates.len(), top_k), (2, 4));
            p
        }
        _ => panic!("the reranker is next"),
    };
    let pass = match pass.take::<bool>(Ok(Answer::Reranked(vec![cand("b")]))).unwrap() {
        Next::Ask(p, Request::Classify { candidates, .. }) => {
            assert_eq!(candidates[0].id, "b");
            p
        }
        _ => panic!("the classifier is next"),
    };
    match pass.take(Ok(Answer::Classified(true))).unwrap() {
        Next::Done(out) => {
            assert_eq!((out.query.as_str(), out.readiness), ("why?", true));
            assert_eq!(out.candidates[0].id, "b");
        }
        _ => panic!("the pass is over"),
    }
}

#[test]
fn a_component_that_fails_ends_the_pass() {
    let (pass, _) = AskPass::begin("q", FlowConfig::default());
    let err = pass.take::<bool>(Err(RrfError::Embed("down".to_string())));
    assert!(matches!(err, Err(RrfError::Embed(m)) if m == "down"));
}

fn doc(id: &str) -> Document {
    Document {
        id: id.to_string(),
        text: format!("text {id}"),
        metadata: "{}".to_string(),
        shape: "s".to_string(),
    }
}

#[test]
fn indexing_pairs_documents_with_vectors() {
    assert!(texts_to_embed(&Vec::new()).is_none());
    let docs = vec![doc("a"), doc("b"), doc("c")];
    assert_eq!(texts_to_embed(&docs).unwrap(), vec!["text a", "text b", "text c"]);
    let records = records_to_upsert(&docs, vec![vec![1], vec![2]]);
    assert_eq!(records.len(), 2);
    assert_eq!((records[1].id.as_str(), records[1].embedding.clone()), ("b", vec![2]));
    assert_eq!((records[1].text.as_str(), records[1].shape.as_str()), ("text b", "s"));
}

#[test]
fn options_have_defaults() {
    let d = ServeOptions::default();
    assert_eq!((d.node_id.as_str(), d.listen), ("rrf", None));
    let o = ServeOptions::from_settings(None, Some("127.0.0.1:7878".to_string()));
    assert_eq!((o.node_id.as_str(), o.listen.as_deref()), ("rrf", Some("127.0.0.1:7878")));
    assert_eq!(ServeOptions::from_settings(Some("n1".to_string()), None).node_id, "n1");
}

#[test]
fn an_engine_hands_out_its_estate() {
    let engine = EmbeddedEngine::new("estate", 5);
    assert_eq!(*engine.estate(), "estate");
}
