//! Change notifications: configuration, channel types, subscriptions and
//! the content of change events.
use vstd::prelude::*;
use std::time::{Duration, Instant};
use dashmap::DashMap;
use crate::store::{Quad, QuadModel, quads_view};
use crate::text::{push_str, push_decimal, decimal, parse_u64, parse_u64_str};
use crate::server::str_eq;

verus! {

#[verifier::external_type_specification]
#[verifier::external_body]
pub struct ExInstant(std::time::Instant);

/// Cloning an instant (std's `Clone` for the `Copy` type `Instant`) gives
/// the same instant.
pub assume_specification[ <std::time::Instant as Clone>::clone ](i: &std::time::Instant) -> (r: std::time::Instant)
    ensures
        r == *i,
;

/// Cloning a duration (std's `Clone` for the `Copy` type `Duration`) gives
/// the same duration.
pub assume_specification[ <std::time::Duration as Clone>::clone ](d: &std::time::Duration) -> (r: std::time::Duration)
    ensures
        r == *d,
;

/// The current instant (std's `Instant::now`); nothing is stated of it.
#[verifier::external_body]
pub(crate) fn instant_now() -> (r: Instant) {
    Instant::now()
}

/// A random UUID (uuid's `Uuid::new_v4`) in its hyphenated lower-case text
/// form: 36 characters, hyphens at 8, 13, 18 and 23, the version digit `4`
/// at 14, lower-case hexadecimal digits elsewhere. Which UUID comes out is
/// chance.
#[verifier::external_body]
pub(crate) fn new_uuid_text() -> (r: String)
    ensures
        is_uuid_v4_text(r@),
{
    uuid::Uuid::new_v4().to_string()
}

/// A lower-case hexadecimal digit.
pub open spec fn is_lower_hex(c: char) -> bool {
    ('0' <= c && c <= '9') || ('a' <= c && c <= 'f')
}

/// The hyphenated lower-case text of a version-4 UUID.
pub open spec fn is_uuid_v4_text(s: Seq<char>) -> bool {
    &&& s.len() == 36
    &&& forall|i: int| 0 <= i < 36 ==> if i == 8 || i == 13 || i == 18 || i == 23 {
        s[i] == '-'
    } else {
        is_lower_hex(#[trigger] s[i])
    }
    &&& s[14] == '4'
}

/// Configuration for the change notification server.
#[derive(Clone)]
pub struct CdcConfig {
    /// Port for the notification server to bind to.
    pub bind_port: u16,
    /// URL of the main SPARQL server (for topic URLs and Link header).
    pub main_server_url: String,
    /// Max queued notifications per subscriber.
    pub buffer_size: usize,
    /// Batching time window.
    pub batch_window: Duration,
}

/// Channel type for a subscription.
#[derive(Debug, Clone, Copy, PartialEq, Eq, Structural)]
pub enum ChannelType {
    WebSocketChannel2023,
    StreamingHTTPChannel2023,
}

/// The name of a channel type.
pub open spec fn channel_type_name(t: ChannelType) -> Seq<char> {
    match t {
        ChannelType::WebSocketChannel2023 => "WebSocketChannel2023"@,
        ChannelType::StreamingHTTPChannel2023 => "StreamingHTTPChannel2023"@,
    }
}

/// The channel type a name stands for.
pub open spec fn channel_type_of(s: Seq<char>) -> Option<ChannelType> {
    if s == "WebSocketChannel2023"@ {
        Some(ChannelType::WebSocketChannel2023)
    } else if s == "StreamingHTTPChannel2023"@ {
        Some(ChannelType::StreamingHTTPChannel2023)
    } else {
        None
    }
}

impl ChannelType {
    /// Reads a channel type name; the error is the message of the refusal.
    pub fn parse(name: &str) -> (r: Result<ChannelType, String>)
        ensures
            match channel_type_of(name@) {
                Some(t) => r == Ok::<ChannelType, String>(t),
                None => r matches Err(m) && m@ == "Unsupported channel type: "@ + name@,
            },
    {
        if str_eq(name, "WebSocketChannel2023") {
            Ok(ChannelType::WebSocketChannel2023)
        } else if str_eq(name, "StreamingHTTPChannel2023") {
            Ok(ChannelType::StreamingHTTPChannel2023)
        } else {
            let mut m = "Unsupported channel type: ".to_owned();
            push_str(&mut m, name);
            Err(m)
        }
    }

    /// The name of the channel type.
    pub fn name(&self) -> (r: &'static str)
        ensures
            r@ == channel_type_name(*self),
    {
        match self {
            ChannelType::WebSocketChannel2023 => "WebSocketChannel2023",
            ChannelType::StreamingHTTPChannel2023 => "StreamingHTTPChannel2023",
        }
    }
}

/// An active notification subscription.
#[derive(Debug, Clone)]
pub struct Subscription {
    pub id: String,
    pub topic: String,
    pub channel_type: ChannelType,
    pub created: Instant,
    pub last_event_id: Option<u64>,
}

/// The subscription that a request makes, given its id and creation time:
/// the topic defaults to the main server URL, and a `state` that reads as
/// an unsigned integer is the last event id seen.
pub fn make_subscription(
    id: String,
    created: Instant,
    config: &CdcConfig,
    channel_type_name: &str,
    topic: Option<String>,
    state: Option<String>,
) -> (r: Result<Subscription, String>)
    ensures
        match channel_type_of(channel_type_name@) {
            None => r matches Err(m) && m@ == "Unsupported channel type: "@ + channel_type_name@,
            Some(t) => r matches Ok(s) && s.id == id && s.created == created && s.channel_type == t
                && s.topic@ == (match topic { Some(x) => x@, None => config.main_server_url@ })
                && s.last_event_id == (match state { Some(x) => parse_u64(x@), None => None }),
        },
{
    let channel_type = match ChannelType::parse(channel_type_name) {
        Ok(t) => t,
        Err(m) => return Err(m),
    };
    let topic = match topic {
        Some(t) => t,
        None => config.main_server_url.clone(),
    };
    let last_event_id = match &state {
        Some(s) => parse_u64_str(s.as_str()),
        None => None,
    };
    Ok(Subscription { id, topic, channel_type, created, last_event_id })
}

/// The subscription that a request makes, with a fresh random id and the
/// current time.
pub fn open_subscription(config: &CdcConfig, channel_type_name: &str, topic: Option<String>, state: Option<String>)
    -> (r: Result<Subscription, String>)
    ensures
        match channel_type_of(channel_type_name@) {
            None => r matches Err(m) && m@ == "Unsupported channel type: "@ + channel_type_name@,
            Some(t) => r matches Ok(s) && is_uuid_v4_text(s.id@) && s.channel_type == t
                && s.topic@ == (match topic { Some(x) => x@, None => config.main_server_url@ })
                && s.last_event_id == (match state { Some(x) => parse_u64(x@), None => None }),
        },
{
    let id = new_uuid_text();
    let created = instant_now();
    make_subscription(id, created, config, channel_type_name, topic, state)
}

/// `http://0.0.0.0:<port>`, the base of the notification server's URLs.
pub open spec fn server_base(port: u16) -> Seq<char> {
    "http://0.0.0.0:"@ + decimal(port as nat)
}

/// The base of the notification server's URLs.
pub fn server_base_url(port: u16) -> (r: String)
    ensures
        r@ == server_base(port),
{
    let mut out = "http://0.0.0.0:".to_owned();
    push_decimal(&mut out, port as u64);
    out
}

/// The URL of a subscription's channel.
pub fn channel_path(port: u16, channel_type: ChannelType, sub_id: &str) -> (r: String)
    ensures
        r@ == server_base(port) + (match channel_type {
            ChannelType::WebSocketChannel2023 => "/channel/ws/"@,
            ChannelType::StreamingHTTPChannel2023 => "/channel/sse/"@,
        }) + sub_id@,
{
    let mut out = server_base_url(port);
    match channel_type {
        ChannelType::WebSocketChannel2023 => push_str(&mut out, "/channel/ws/"),
        ChannelType::StreamingHTTPChannel2023 => push_str(&mut out, "/channel/sse/"),
    }
    push_str(&mut out, sub_id);
    out
}

/// An event sent when a transaction is committed.
#[derive(Debug, Clone)]
pub struct ChangeEvent {
    pub id: u64,
    pub timestamp: String,
    pub operation: String,
    pub inserted: Vec<Quad>,
    pub removed: Vec<Quad>,
}

/// The activity a change is: `Create` when it only inserts, `Delete` when
/// it only removes, `Update` otherwise.
pub open spec fn activity_name(inserted: Seq<QuadModel>, removed: Seq<QuadModel>) -> Seq<char> {
    if removed.len() == 0 && inserted.len() > 0 {
        "Create"@
    } else if inserted.len() == 0 && removed.len() > 0 {
        "Delete"@
    } else {
        "Update"@
    }
}

/// The activity type of an event.
pub fn activity_type(event: &ChangeEvent) -> (r: &'static str)
    ensures
        r@ == activity_name(quads_view(event.inserted@), quads_view(event.removed@)),
{
    if event.removed.len() == 0 && event.inserted.len() > 0 {
        "Create"
    } else if event.inserted.len() == 0 && event.removed.len() > 0 {
        "Delete"
    } else {
        "Update"
    }
}

/// The activity of a change depends only on which of its two quad lists
/// are empty, not on how many quads they hold: a change that only inserts
/// is a `Create`, one that only removes a `Delete`, any other an `Update`.
pub proof fn lemma_activity_by_emptiness(
    inserted: Seq<QuadModel>,
    removed: Seq<QuadModel>,
    inserted2: Seq<QuadModel>,
    removed2: Seq<QuadModel>,
)
    requires
        (inserted.len() == 0) == (inserted2.len() == 0),
        (removed.len() == 0) == (removed2.len() == 0),
    ensures
        activity_name(inserted, removed) == activity_name(inserted2, removed2),
        inserted.len() > 0 && removed.len() == 0 ==> activity_name(inserted, removed) == "Create"@,
        inserted.len() == 0 && removed.len() > 0 ==> activity_name(inserted, removed) == "Delete"@,
        (inserted.len() > 0) == (removed.len() > 0) ==> activity_name(inserted, removed) == "Update"@,
{
}

/// Plain-value model of a subscription.
pub struct SubscriptionModel {
    pub id: Seq<char>,
    pub topic: Seq<char>,
    pub channel_type: ChannelType,
    pub created: Instant,
    pub last_event_id: Option<u64>,
}

impl View for Subscription {
    type V = SubscriptionModel;

    open spec fn view(&self) -> SubscriptionModel {
        SubscriptionModel {
            id: self.id@,
            topic: self.topic@,
            channel_type: self.channel_type,
            created: self.created,
            last_event_id: self.last_event_id,
        }
    }
}

/// What a table of subscriptions holds: each subscription id mapped to the
/// subscription stored under it.
pub uninterp spec fn sub_table(m: DashMap<String, Subscription>) -> Map<Seq<char>, SubscriptionModel>;

/// An empty table (dashmap's `DashMap::new`).
#[verifier::external_body]
fn sub_table_new() -> (r: DashMap<String, Subscription>)
    ensures
        sub_table(r).is_empty(),
{
    DashMap::new()
}

/// Stores a subscription under an id, replacing any held under it
/// (dashmap's `DashMap::insert`).
#[verifier::external_body]
fn sub_table_insert(m: &mut DashMap<String, Subscription>, id: String, sub: Subscription)
    ensures
        sub_table(*final(m)) == sub_table(*old(m)).insert(id@, sub@),
{
    m.insert(id, sub);
}

/// A copy of the subscription held under an id, if there is one (dashmap's
/// `DashMap::get`, cloning the value).
#[verifier::external_body]
fn sub_table_get(m: &DashMap<String, Subscription>, id: &str) -> (r: Option<Subscription>)
    ensures
        match r {
            Some(s) => sub_table(*m).contains_key(id@) && s@ == sub_table(*m)[id@],
            None => !sub_table(*m).contains_key(id@),
        },
{
    m.get(id).map(|s| s.clone())
}

/// Takes the subscription held under an id out of the table, if there is
/// one (dashmap's `DashMap::remove`).
#[verifier::external_body]
fn sub_table_remove(m: &mut DashMap<String, Subscription>, id: &str) -> (r: Option<Subscription>)
    ensures
        sub_table(*final(m)) == sub_table(*old(m)).remove(id@),
        match r {
            Some(s) => sub_table(*old(m)).contains_key(id@) && s@ == sub_table(*old(m))[id@],
            None => !sub_table(*old(m)).contains_key(id@),
        },
{
    m.remove(id).map(|(_, s)| s)
}

/// How many subscriptions the table holds (dashmap's `DashMap::len`).
#[verifier::external_body]
fn sub_table_len(m: &DashMap<String, Subscription>) -> (r: usize)
    ensures
        r == sub_table(*m).len(),
{
    m.len()
}

/// The active subscriptions, by id.
pub struct SubscriptionRegistry {
    subscriptions: DashMap<String, Subscription>,
}

impl View for SubscriptionRegistry {
    type V = Map<Seq<char>, SubscriptionModel>;

    closed spec fn view(&self) -> Map<Seq<char>, SubscriptionModel> {
        sub_table(self.subscriptions)
    }
}

impl SubscriptionRegistry {
    /// A registry with no subscription.
    pub fn new() -> (r: Self)
        ensures
            r@.is_empty(),
    {
        SubscriptionRegistry { subscriptions: sub_table_new() }
    }

    /// Stores a subscription under its own id, replacing any held under it.
    pub fn insert(&mut self, sub: Subscription)
        ensures
            final(self)@ == old(self)@.insert(sub.id@, sub@),
    {
        let id = sub.id.clone();
        sub_table_insert(&mut self.subscriptions, id, sub);
    }

    /// The subscription with the given id, if any.
    pub fn get(&self, id: &str) -> (r: Option<Subscription>)
        ensures
            match r {
                Some(s) => self@.contains_key(id@) && s@ == self@[id@],
                None => !self@.contains_key(id@),
            },
    {
        sub_table_get(&self.subscriptions, id)
    }

    /// Removes the subscription with the given id; returns it if there was one.
    pub fn remove(&mut self, id: &str) -> (r: Option<Subscription>)
        ensures
            final(self)@ == old(self)@.remove(id@),
            match r {
                Some(s) => old(self)@.contains_key(id@) && s@ == old(self)@[id@],
                None => !old(self)@.contains_key(id@),
            },
    {
        sub_table_remove(&mut self.subscriptions, id)
    }

    /// How many subscriptions are active.
    pub fn count(&self) -> (r: usize)
        ensures
            r == self@.len(),
    {
        sub_table_len(&self.subscriptions)
    }
}

} // verus!
