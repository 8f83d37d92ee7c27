//! What the node's commands do: bringing up the network state, and
//! announcing content.

use crate::crypto::{ed25519_public, id_of_content, id_of_key, NodeIdentity};
use crate::discovery::Address;
use crate::event::{action_views, Action};
use crate::message::Topic;
use crate::node::{Node, Settings};
use crate::query::{Outcome, OutcomeView, QueryError, QueryKind};
use crate::seqs::copy_bytes;
use vstd::prelude::*;
use vstd::string::StringExecFns;
use vstd::utf8::encode_utf8;

verus! {

/// The topic that every node is subscribed to from its start.
pub fn example_topic() -> (topic: Topic)
    ensures
        topic@ == "example-topic"@,
{
    Topic::new("example-topic")
}

/// Brings up the state of a node: its identity, made of the seed, and
/// its protocols, without peers; the node is subscribed to the example
/// topic. There is none where the settings are not usable.
pub fn start_network(seed: [u8; 32], addrs: Vec<Address>, settings: Settings) -> (made: Option<Node>)
    ensures
        made.is_some() == settings.usable(),
        made.is_some() ==> {
            let node = made.unwrap();
            &&& node.wf()
            &&& node@.seed == seed@
            &&& node@.id == id_of_key(ed25519_public(seed@))
            &&& node@.addrs == addrs@
            &&& node@.settings == settings
            &&& node@.gossip.topics == seq!["example-topic"@]
            &&& node@.gossip.explicit == Seq::<crate::id::PeerId>::empty()
            &&& node@.gossip.next_sequence == 0
            &&& node@.discovery.peers == Seq::<crate::discovery::PeerRecordView>::empty()
            &&& node@.routing.peers() == Seq::<crate::id::PeerId>::empty()
            &&& node@.store == Seq::<crate::record::RecordView>::empty()
            &&& node@.queries == Seq::<crate::node::EntryView>::empty()
            &&& node@.connections == Seq::<crate::connection::Connection>::empty()
        },
{
    let identity = NodeIdentity::from_seed(seed);
    match Node::new(identity, addrs, settings) {
        Some(mut node) => {
            node.subscribe(&example_topic());
            assert(node@.gossip.topics =~= seq!["example-topic"@]);
            Some(node)
        },
        None => None,
    }
}

/// Announces content: starts storing, under the content's identifier,
/// the value `content` with the node as publisher, at one peer at
/// least. Tells the number by which the operation is known.
pub fn announce_content(node: &mut Node, content_id: &str, now: u64) -> (started: (
    u64,
    Vec<Action>,
))
    requires
        old(node).wf(),
        old(node).in_time(now),
        old(node)@.next_query < u64::MAX,
    ensures
        final(node).wf(),
        started.0 == old(node)@.next_query,
        (final(node)@, action_views(started.1@)) == old(node)@.start(
            QueryKind::PutValue,
            encode_utf8(content_id@),
            id_of_content(encode_utf8(content_id@)),
            Some(
                old(node)@.own_record(encode_utf8(content_id@), encode_utf8("content"@), now),
            ),
            1,
            now,
        ),
{
    let key = copy_bytes(content_id.as_bytes());
    let value = copy_bytes("content".as_bytes());
    node.put_record(key, value, 1, now).unwrap()
}

/// The name of an error.
pub fn error_name(error: QueryError) -> (name: &'static str)
    ensures
        name@ == match error {
            QueryError::QuorumNotMet => "QuorumNotMet"@,
            QueryError::NotFound => "NotFound"@,
            QueryError::Timeout => "Timeout"@,
        },
{
    match error {
        QueryError::QuorumNotMet => "QuorumNotMet",
        QueryError::NotFound => "NotFound",
        QueryError::Timeout => "Timeout",
    }
}

/// What is told of the end of an announcement, if anything.
pub open spec fn report_of(content_id: Seq<char>, outcome: OutcomeView) -> Option<Seq<char>> {
    match outcome {
        OutcomeView::Stored(_) => Some("Content announced: "@ + content_id),
        OutcomeView::Failed(QueryError::QuorumNotMet) => Some(
            "Failed to announce content: "@ + "QuorumNotMet"@,
        ),
        OutcomeView::Failed(QueryError::NotFound) => Some(
            "Failed to announce content: "@ + "NotFound"@,
        ),
        OutcomeView::Failed(QueryError::Timeout) => Some(
            "Failed to announce content: "@ + "Timeout"@,
        ),
        _ => None,
    }
}

/// What is told of the end of the announcement of `content_id`.
pub fn announce_report(content_id: &str, outcome: &Outcome) -> (report: Option<String>)
    ensures
        match report {
            Some(text) => report_of(content_id@, outcome@) == Some(text@),
            None => report_of(content_id@, outcome@).is_none(),
        },
{
    match outcome {
        Outcome::Stored(_) => {
            let mut text = "Content announced: ".to_owned();
            text.append(content_id);
            Some(text)
        },
        Outcome::Failed(error) => {
            let mut text = "Failed to announce content: ".to_owned();
            text.append(error_name(*error));
            Some(text)
        },
        _ => None,
    }
}

} // verus!
