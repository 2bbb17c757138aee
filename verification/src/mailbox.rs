//! A stand-in for a datanode: the replies that it gives and the mailbox that takes them.
use crate::entry_ids::Role;
use crate::string_map::StringMap;
use crate::text::{decimal, decimal_string, digit_char};
use std::time::{Duration, UNIX_EPOCH};
use vstd::prelude::*;
use vstd::string::*;

verus! {

/// A node that messages are exchanged with: what it is, and its number.
#[derive(Debug, Clone, Copy, PartialEq, Eq, Structural)]
pub struct Channel {
    pub role: Role,
    pub id: u64,
}

/// The number of a role.
pub open spec fn role_number(role: Role) -> nat {
    match role {
        Role::Datanode => 0,
        Role::Frontend => 1,
        Role::Flownode => 2,
    }
}

/// The key under which the sender to a node is kept: the number of its role and its own, with a
/// dash between them.
pub open spec fn pusher_key(channel: Channel) -> Seq<char> {
    decimal(role_number(channel.role)) + "-"@ + decimal(channel.id as nat)
}

impl Channel {
    /// The key under which the sender to the node is kept.
    pub fn string_key(&self) -> (key: String)
        ensures
            key@ == pusher_key(*self),
    {
        let role: u64 = match self.role {
            Role::Datanode => 0,
            Role::Frontend => 1,
            Role::Flownode => 2,
        };
        let mut key = decimal_string(role);
        key.append("-");
        key.append(decimal_string(self.id).as_str());
        key
    }
}

/// Different numbers have different numerals.
proof fn lemma_decimal_differs(a: nat, b: nat)
    requires
        decimal(a) == decimal(b),
    ensures
        a == b,
    decreases a,
{
    lemma_decimal_len(a);
    lemma_decimal_len(b);
    assert(decimal(a).last() == digit_char(a % 10));
    assert(decimal(b).last() == digit_char(b % 10));
    assert(digit_char(a % 10) == digit_char(b % 10) ==> a % 10 == b % 10);
    if a >= 10 && b >= 10 {
        assert(decimal(a).drop_last() =~= decimal(a / 10));
        assert(decimal(b).drop_last() =~= decimal(b / 10));
        lemma_decimal_differs(a / 10, b / 10);
    }
}

/// A numeral has one digit exactly where the number is below ten.
proof fn lemma_decimal_len(n: nat)
    ensures
        decimal(n).len() >= 1,
        decimal(n).len() == 1 <==> n < 10,
    decreases n,
{
    if n >= 10 {
        lemma_decimal_len(n / 10);
    }
}

/// The senders to different nodes are kept under different keys.
pub proof fn law_pusher_keys_differ(a: Channel, b: Channel)
    ensures
        pusher_key(a) == pusher_key(b) <==> a == b,
{
    if pusher_key(a) == pusher_key(b) {
        reveal_strlit("-");
        lemma_decimal_len(role_number(a.role));
        lemma_decimal_len(role_number(b.role));
        assert(pusher_key(a).skip(2) =~= decimal(a.id as nat));
        assert(pusher_key(b).skip(2) =~= decimal(b.id as nat));
        lemma_decimal_differs(a.id as nat, b.id as nat);
        assert(pusher_key(a).take(1) =~= decimal(role_number(a.role)));
        assert(pusher_key(b).take(1) =~= decimal(role_number(b.role)));
        lemma_decimal_differs(role_number(a.role), role_number(b.role));
    }
}

/// The context of mailbox: the mailbox, and the senders through which it reaches nodes.
pub struct MailboxContext<M, S> {
    mailbox: M,
    pushers: StringMap<S>,
}

impl<M, S> MailboxContext<M, S> {
    /// The mailbox.
    pub closed spec fn the_mailbox(&self) -> M {
        self.mailbox
    }

    /// The senders, by their keys.
    pub closed spec fn the_pushers(&self) -> Map<Seq<char>, S> {
        self.pushers@
    }

    /// The sender that a message to a node goes to.
    pub open spec fn sender_to(&self, channel: Channel) -> Option<S> {
        if self.the_pushers().contains_key(pusher_key(channel)) {
            Some(self.the_pushers()[pusher_key(channel)])
        } else {
            None
        }
    }

    /// A mailbox that reaches no node yet.
    pub fn new(mailbox: M) -> (context: MailboxContext<M, S>)
        ensures
            context.the_mailbox() == mailbox,
            context.the_pushers() == Map::<Seq<char>, S>::empty(),
    {
        MailboxContext { mailbox, pushers: StringMap::new() }
    }

    /// Inserts a pusher for a node. It replaces the one that was there.
    pub fn insert_heartbeat_response_receiver(&mut self, channel: Channel, tx: S)
        ensures
            final(self).the_mailbox() == old(self).the_mailbox(),
            final(self).the_pushers() == old(self).the_pushers().insert(pusher_key(channel), tx),
    {
        let _ = self.pushers.insert(channel.string_key(), tx);
    }

    /// The sender that a message to a node goes to.
    pub fn pusher(&self, channel: Channel) -> (tx: Option<&S>)
        ensures
            match tx {
                Some(tx) => self.sender_to(channel) == Some(*tx),
                None => self.sender_to(channel) is None,
            },
    {
        self.pushers.get(channel.string_key().as_str())
    }

    /// The mailbox.
    pub fn mailbox(&self) -> (mailbox: &M)
        ensures
            *mailbox == self.the_mailbox(),
    {
        &self.mailbox
    }
}

/// A message to a node goes to the sender that was last inserted for it; messages to other nodes
/// go where they went before, and the mailbox stays the same.
pub proof fn law_messages_go_to_the_inserted_sender<M, S>(
    before: MailboxContext<M, S>,
    channel: Channel,
    tx: S,
    after: MailboxContext<M, S>,
    other: Channel,
)
    requires
        after.the_mailbox() == before.the_mailbox(),
        after.the_pushers() == before.the_pushers().insert(pusher_key(channel), tx),
    ensures
        after.sender_to(channel) == Some(tx),
        other != channel ==> after.sender_to(other) == before.sender_to(other),
        after.the_mailbox() == before.the_mailbox(),
{
    law_pusher_keys_differ(channel, other);
}

/// Whether an operation succeeded.
#[derive(Debug, PartialEq, Eq)]
pub struct SimpleReply {
    pub result: bool,
    pub error: Option<String>,
}

/// How a region was downgraded.
#[derive(Debug, PartialEq, Eq)]
pub struct DowngradeRegionReply {
    pub last_entry_id: Option<u64>,
    pub exists: bool,
    pub error: Option<String>,
}

/// How a region was upgraded.
#[derive(Debug, PartialEq, Eq)]
pub struct UpgradeRegionReply {
    pub ready: bool,
    pub exists: bool,
    pub error: Option<String>,
}

/// The answer of a datanode to an instruction.
#[derive(Debug, PartialEq, Eq)]
pub enum InstructionReply {
    OpenRegion(SimpleReply),
    CloseRegion(SimpleReply),
    UpgradeRegion(UpgradeRegionReply),
    DowngradeRegion(DowngradeRegionReply),
}

/// A message between nodes.
#[derive(Debug, PartialEq, Eq)]
pub struct MailboxMessage {
    pub id: u64,
    pub subject: String,
    pub from: String,
    pub to: String,
    pub timestamp_millis: i64,
    pub payload: Option<InstructionReply>,
}

/// The answer to a heartbeat, which may carry a message.
#[derive(Debug)]
pub struct HeartbeatResponse {
    pub mailbox_message: Option<MailboxMessage>,
}

impl MailboxMessage {
    /// Whether the message is a reply of the stand-in, at whatever time.
    pub open spec fn is_mock_reply(self, id: u64, reply: InstructionReply) -> bool {
        &&& self.id == id
        &&& self.subject@ == "mock"@
        &&& self.from@ == "datanode"@
        &&& self.to@ == "meta"@
        &&& self.payload == Some(reply)
    }
}

/// `std::time::SystemTime::elapsed` on the epoch of Unix: how long ago that was, or, as the
/// error, how far ahead it is. Nothing is stated of the time.
#[verifier::external_body]
fn time_since_epoch() -> Result<Duration, Duration> {
    UNIX_EPOCH.elapsed().map_err(|err| err.duration())
}

/// How many whole milliseconds a duration has.
pub uninterp spec fn duration_millis(duration: Duration) -> u128;

/// `std::time::Duration::as_millis`: how many whole milliseconds a duration has.
#[verifier::external_body]
fn whole_millis(duration: &Duration) -> (millis: u128)
    ensures
        millis == duration_millis(*duration),
{
    duration.as_millis()
}

/// A time as the number of milliseconds since the epoch, or, as a negative number, until it. A
/// distance of more than `i64::MAX` counts as `i64::MAX`.
pub fn epoch_millis(since: Result<Duration, Duration>) -> (millis: i64)
    ensures
        match since {
            Ok(after) => if duration_millis(after) <= i64::MAX {
                millis == duration_millis(after)
            } else {
                millis == i64::MAX
            },
            Err(before) => if duration_millis(before) <= i64::MAX {
                millis == -duration_millis(before)
            } else {
                millis == -i64::MAX
            },
        },
{
    let (distance, ahead) = match &since {
        Ok(after) => (whole_millis(after), false),
        Err(before) => (whole_millis(before), true),
    };
    let millis: i64 = if distance <= 0x7fff_ffff_ffff_ffff {
        distance as i64
    } else {
        0x7fff_ffff_ffff_ffff
    };
    if ahead {
        -millis
    } else {
        millis
    }
}

/// A reply of the stand-in at a time.
pub fn mock_reply(id: u64, timestamp_millis: i64, reply: InstructionReply) -> (message:
    MailboxMessage)
    ensures
        message.is_mock_reply(id, reply),
        message.timestamp_millis == timestamp_millis,
{
    MailboxMessage {
        id,
        subject: "mock".to_owned(),
        from: "datanode".to_owned(),
        to: "meta".to_owned(),
        timestamp_millis,
        payload: Some(reply),
    }
}

/// Generates a [`InstructionReply::OpenRegion`] reply.
pub fn new_open_region_reply(id: u64, result: bool, error: Option<String>) -> (message:
    MailboxMessage)
    ensures
        message.is_mock_reply(id, InstructionReply::OpenRegion((SimpleReply { result, error }))),
{
    mock_reply(
        id,
        epoch_millis(time_since_epoch()),
        InstructionReply::OpenRegion(SimpleReply { result, error }),
    )
}

/// Generates a [`InstructionReply::CloseRegion`] reply.
pub fn new_close_region_reply(id: u64) -> (message: MailboxMessage)
    ensures
        message.is_mock_reply(
            id,
            InstructionReply::CloseRegion((SimpleReply { result: false, error: None })),
        ),
{
    mock_reply(
        id,
        epoch_millis(time_since_epoch()),
        InstructionReply::CloseRegion(SimpleReply { result: false, error: None }),
    )
}

/// Generates a [`InstructionReply::DowngradeRegion`] reply.
pub fn new_downgrade_region_reply(
    id: u64,
    last_entry_id: Option<u64>,
    exist: bool,
    error: Option<String>,
) -> (message: MailboxMessage)
    ensures
        message.is_mock_reply(
            id,
            InstructionReply::DowngradeRegion(
                (DowngradeRegionReply { last_entry_id, exists: exist, error }),
            ),
        ),
{
    mock_reply(
        id,
        epoch_millis(time_since_epoch()),
        InstructionReply::DowngradeRegion(
            DowngradeRegionReply { last_entry_id, exists: exist, error },
        ),
    )
}

/// Generates a [`InstructionReply::UpgradeRegion`] reply.
pub fn new_upgrade_region_reply(id: u64, ready: bool, exists: bool, error: Option<String>) -> (message:
    MailboxMessage)
    ensures
        message.is_mock_reply(
            id,
            InstructionReply::UpgradeRegion((UpgradeRegionReply { ready, exists, error })),
        ),
{
    mock_reply(
        id,
        epoch_millis(time_since_epoch()),
        InstructionReply::UpgradeRegion(UpgradeRegionReply { ready, exists, error }),
    )
}

/// What the stand-in does with what it received: it replies to the message with this number, or
/// stops where nothing more comes or the other side failed.
pub fn next_mock_reply<E>(received: Option<Result<HeartbeatResponse, E>>) -> (reply_to: Option<u64>)
    requires
        received matches Some(Ok(response)) ==> response.mailbox_message is Some,
    ensures
        match received {
            Some(Ok(response)) => reply_to == Some(response.mailbox_message->0.id),
            _ => reply_to is None,
        },
{
    match received {
        Some(Ok(response)) => match response.mailbox_message {
            Some(message) => Some(message.id),
            None => None,
        },
        _ => None,
    }
}

/// The key of a sender is the digit of the role, a dash, and the numeral of the node.
pub proof fn law_pusher_key_is_made_of_role_and_number(id: u64)
    ensures
        pusher_key((Channel { role: Role::Datanode, id })) == seq!['0', '-'] + decimal(id as nat),
        pusher_key((Channel { role: Role::Frontend, id })) == seq!['1', '-'] + decimal(id as nat),
        pusher_key((Channel { role: Role::Flownode, id })) == seq!['2', '-'] + decimal(id as nat),
{
    reveal_strlit("-");
    assert(seq![digit_char(0)] + "-"@ =~= seq!['0', '-']);
    assert(seq![digit_char(1)] + "-"@ =~= seq!['1', '-']);
    assert(seq![digit_char(2)] + "-"@ =~= seq!['2', '-']);
}

/// A reply of the stand-in answers the message with its number, goes from the datanode to the
/// metadata server, and carries what was replied; two such replies differ in their time alone.
pub proof fn law_mock_replies_carry_the_reply(
    message: MailboxMessage,
    id: u64,
    reply: InstructionReply,
)
    ensures
        message.is_mock_reply(id, reply) <==> {
            &&& message.id == id
            &&& message.subject@ == "mock"@
            &&& message.from@ == "datanode"@
            &&& message.to@ == "meta"@
            &&& message.payload == Some(reply)
        },
{
}

/// A mailbox without senders reaches no node.
pub proof fn law_no_sender_without_insertion<M, S>(context: MailboxContext<M, S>, channel: Channel)
    requires
        context.the_pushers() == Map::<Seq<char>, S>::empty(),
    ensures
        context.sender_to(channel) is None,
{
}

} // verus!
