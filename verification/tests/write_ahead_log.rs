use std::collections::{HashMap, HashSet};
use std::time::Duration;
use wal_columns::entry_ids::{
    entry_ids_key, merge_region_last_entry_id, read_entry_id, Error, RegionStat,
    RemoteWalEntryIdHandler, Role, REMOTE_WAL_LAST_ENTRY_ID_KEY,
};
use wal_columns::mailbox::{
    epoch_millis, mock_reply, new_close_region_reply, new_downgrade_region_reply, new_open_region_reply,
    new_upgrade_region_reply, next_mock_reply, Channel, DowngradeRegionReply, HeartbeatResponse,
    InstructionReply, MailboxContext, MailboxMessage, SimpleReply, UpgradeRegionReply,
};
use wal_columns::region::{Peer, RegionId};
use wal_columns::string_map::StringMap;
use wal_columns::wal_prune::{draw_entry_ids, plan_table, WalPruneMetadata};

const ENTRY_KEY: &str = "last_entry_id";

fn stat(region_id: u64, entry: Option<&str>) -> RegionStat {
    let mut extensions = StringMap::new();
    extensions.insert("other".to_string(), b"not a number".to_vec());
    if let Some(entry) = entry {
        extensions.insert(ENTRY_KEY.to_string(), entry.as_bytes().to_vec());
    }
    RegionStat { region_id, extensions }
}

#[test]
fn only_datanodes_are_heard() {
    let handler = RemoteWalEntryIdHandler;
    assert!(handler.is_acceptable(Role::Datanode));
    assert!(!handler.is_acceptable(Role::Frontend));
    assert!(!handler.is_acceptable(Role::Flownode));
}

#[test]
fn heartbeats_make_entries_known() {
    let handler = RemoteWalEntryIdHandler;
    let stats = vec![
        stat(1, Some("10")),
        stat(2, None),
        stat(3, Some("+7")),
        stat(1, Some("11")),
    ];
    assert!(handler.readable(&stats, ENTRY_KEY));
    let ids = handler.handle(true, &stats, ENTRY_KEY).unwrap();
    assert_eq!(ids, HashMap::from([(1, 11), (3, 7)]));
    assert_eq!(handler.handle(false, &stats, ENTRY_KEY), None);
    assert!(!handler.readable(&vec![stat(1, Some("1")), stat(2, Some("x"))], ENTRY_KEY));
}

#[test]
fn entries_are_read_as_numbers() {
    for text in [
        "0", "00012", "+0", "18446744073709551615", "18446744073709551616", "", "+", "-1", "1 ",
        "++1", "99999999999999999999999", "000000000000000000000000000001", "\u{661}", "1a",
    ] {
        assert_eq!(read_entry_id(text.as_bytes()), text.parse::<u64>().ok(), "{text}");
    }
    assert_eq!(read_entry_id(&[0x31, 0xff]), None);
}

#[test]
fn updates_accumulate() {
    let first = HashMap::from([(1, 10), (2, 20)]);
    let put = merge_region_last_entry_id(None, &first).unwrap();
    assert_eq!(put.key, REMOTE_WAL_LAST_ENTRY_ID_KEY.as_bytes());
    assert_eq!(put.key, entry_ids_key());
    assert!(!put.prev_kv);
    let kept: HashMap<u64, u64> = serde_json::from_slice(&put.value).unwrap();
    assert_eq!(kept, first);

    let second = HashMap::from([(2, 5), (u64::MAX, u64::MAX)]);
    let put = merge_region_last_entry_id(Some(&put.value), &second).unwrap();
    let kept: HashMap<u64, u64> = serde_json::from_slice(&put.value).unwrap();
    assert_eq!(kept, HashMap::from([(1, 10), (2, 5), (u64::MAX, u64::MAX)]));

    let put = merge_region_last_entry_id(Some(&put.value), &second).unwrap();
    assert_eq!(serde_json::from_slice::<HashMap<u64, u64>>(&put.value).unwrap(), kept);

    let put = merge_region_last_entry_id(Some(b"{\"7\": 8}"), &HashMap::new()).unwrap();
    assert_eq!(put.value, b"{\"7\":8}");
}

#[test]
fn what_is_no_map_is_refused() {
    let ids = HashMap::from([(1, 1)]);
    assert_eq!(
        merge_region_last_entry_id(Some(b"[1]"), &ids),
        Err(Error::DeserializeFromJson { input: "[1]".to_string() })
    );
    assert_eq!(
        merge_region_last_entry_id(Some(&[0xff, b'a']), &ids),
        Err(Error::DeserializeFromJson { input: "\u{fffd}a".to_string() })
    );
}

fn check_mock(message: &MailboxMessage, id: u64) {
    assert_eq!(message.id, id);
    assert_eq!(message.subject, "mock");
    assert_eq!(message.from, "datanode");
    assert_eq!(message.to, "meta");
    assert!(message.timestamp_millis > 0);
}

#[test]
fn mock_replies() {
    let message = new_open_region_reply(1, true, None);
    check_mock(&message, 1);
    assert_eq!(
        message.payload,
        Some(InstructionReply::OpenRegion(SimpleReply { result: true, error: None }))
    );
    let message = new_close_region_reply(2);
    check_mock(&message, 2);
    assert_eq!(
        message.payload,
        Some(InstructionReply::CloseRegion(SimpleReply { result: false, error: None }))
    );
    let message = new_downgrade_region_reply(3, Some(9), true, Some("late".to_string()));
    check_mock(&message, 3);
    assert_eq!(
        message.payload,
        Some(InstructionReply::DowngradeRegion(DowngradeRegionReply {
            last_entry_id: Some(9),
            exists: true,
            error: Some("late".to_string())
        }))
    );
    let message = new_upgrade_region_reply(4, true, false, None);
    check_mock(&message, 4);
    assert_eq!(
        message.payload,
        Some(InstructionReply::UpgradeRegion(UpgradeRegionReply {
            ready: true,
            exists: false,
            error: None
        }))
    );
    let reply = InstructionReply::CloseRegion(SimpleReply { result: true, error: None });
    assert_eq!(mock_reply(5, -1, reply).timestamp_millis, -1);
}

#[test]
fn replies_go_to_the_message_received() {
    let response = HeartbeatResponse { mailbox_message: Some(new_close_region_reply(42)) };
    assert_eq!(next_mock_reply::<()>(Some(Ok(response))), Some(42));
    assert_eq!(next_mock_reply::<&str>(Some(Err("closed"))), None);
    assert_eq!(next_mock_reply::<()>(None), None);
}

#[test]
fn pushers_are_kept_by_node() {
    let mut context: MailboxContext<&str, u8> = MailboxContext::new("mailbox");
    assert_eq!(*context.mailbox(), "mailbox");
    let datanode = Channel { role: Role::Datanode, id: 12 };
    let frontend = Channel { role: Role::Frontend, id: 12 };
    assert_eq!(datanode.string_key(), "0-12");
    assert_eq!(frontend.string_key(), "1-12");
    assert_eq!(Channel { role: Role::Flownode, id: 0 }.string_key(), "2-0");
    context.insert_heartbeat_response_receiver(datanode, 1);
    context.insert_heartbeat_response_receiver(frontend, 2);
    context.insert_heartbeat_response_receiver(datanode, 3);
    assert_eq!(context.pusher(datanode), Some(&3));
    assert_eq!(context.pusher(frontend), Some(&2));
    assert_eq!(context.pusher(Channel { role: Role::Datanode, id: 1 }), None);
    assert_eq!(*context.mailbox(), "mailbox");
}

#[test]
fn planned_tables() {
    let plan = plan_table(5, 3, "topic");
    assert_eq!(plan.table_id, 5);
    assert_eq!(plan.region_ids, (0..3).map(|i| RegionId::new(5, i)).collect::<Vec<_>>());
    for (route, id) in plan.region_routes.iter().zip(&plan.region_ids) {
        assert_eq!(route.region.id, *id);
        assert_eq!(route.leader_peer, Some(Peer::empty(1)));
    }
    assert_eq!(plan.region_routes.len(), 3);
    assert_eq!(
        plan.region_wal_options,
        (0..3u32).map(|i| (i, "topic".to_string())).collect::<HashMap<_, _>>()
    );
}

#[test]
fn drawn_entries_cover_the_regions_and_vary() {
    let plan = plan_table(1, 16, "topic");
    let ids = draw_entry_ids(&plan.region_ids);
    assert_eq!(
        ids.keys().copied().collect::<HashSet<_>>(),
        plan.region_ids.iter().map(|id| id.as_u64()).collect::<HashSet<_>>()
    );
    assert!(ids.values().collect::<HashSet<_>>().len() > 1);
}

#[test]
fn regions_far_ahead_are_flushed() {
    let mut metadata = WalPruneMetadata::new(2, 2);
    let mut made = 0;
    while let Some(plan) = metadata.next_table("topic") {
        assert_eq!(plan.table_id, made);
        let ids = plan
            .region_ids
            .iter()
            .enumerate()
            .map(|(i, id)| (id.as_u64(), 10 * (made as u64 + 1) + i as u64))
            .collect::<HashMap<_, _>>();
        metadata.record(&ids);
        made += 1;
    }
    assert_eq!(made, 2);
    let (least, regions) = metadata.finish(10);
    assert_eq!(least, None);
    assert_eq!(
        regions.into_iter().collect::<HashSet<_>>(),
        HashSet::from([RegionId::new(0, 1), RegionId::new(1, 0), RegionId::new(1, 1)])
    );
    assert!(metadata.finish(21).1.is_empty());
}

#[test]
fn times_as_milliseconds() {
    assert_eq!(epoch_millis(Ok(Duration::from_micros(1_500_999))), 1500);
    assert_eq!(epoch_millis(Err(Duration::from_millis(1500))), -1500);
    assert_eq!(epoch_millis(Ok(Duration::ZERO)), 0);
    assert_eq!(epoch_millis(Ok(Duration::MAX)), i64::MAX);
    assert_eq!(epoch_millis(Err(Duration::MAX)), -i64::MAX);
    // The clock of a reply is past the year 2020.
    assert!(new_close_region_reply(1).timestamp_millis > 1_577_836_800_000);
}
