use std::collections::HashMap;
use wal_columns::ddl::{
    check_physical_table_name, extract_region_wal_options, get_catalog_and_schema,
    parse_region_wal_options, region_storage_path, table_id_of, CreateTable, CreateTableTask,
    DatanodeTableValue, TableName, LOGICAL_TABLE_METADATA_KEY, METRIC_ENGINE,
};
use wal_columns::meta_error::{
    add_peer_context_if_needed, handle_retry_error, Error, ProcedureError,
};
use wal_columns::region::{
    convert_region_routes_to_detecting_regions, Peer, Region, RegionId, RegionRoute,
};
use wal_columns::string_map::StringMap;
use wal_columns::text::{decimal_string, split_text, trim_text, white_space};

fn task(engine: &str, schema: &str, physical: Option<&str>) -> CreateTableTask {
    let mut table_options = StringMap::new();
    table_options.insert("ttl".to_string(), "7d".to_string());
    if let Some(physical) = physical {
        table_options.insert(LOGICAL_TABLE_METADATA_KEY.to_string(), physical.to_string());
    }
    CreateTableTask {
        create_table: CreateTable {
            catalog_name: "greptime".to_string(),
            schema_name: schema.to_string(),
            engine: engine.to_string(),
            table_options,
        },
    }
}

fn unsupported(tasks: &[CreateTableTask]) -> String {
    match check_physical_table_name(tasks) {
        Err(Error::Unsupported { operation }) => operation,
        other => panic!("unexpected {:?}", other),
    }
}

#[test]
fn test_get_catalog_and_schema() {
    let test_catalog = "my_catalog";
    let test_schema = "my_schema";
    let path = region_storage_path(test_catalog, test_schema);
    let (catalog, schema) = get_catalog_and_schema(&path).unwrap();
    assert_eq!(catalog, test_catalog);
    assert_eq!(schema, test_schema);
}

#[test]
fn paths_that_were_not_made_from_two_names() {
    assert_eq!(region_storage_path("a", "b"), "a/b");
    assert_eq!(get_catalog_and_schema("a"), None);
    assert_eq!(get_catalog_and_schema(""), None);
    assert_eq!(get_catalog_and_schema("/"), Some((String::new(), String::new())));
    assert_eq!(get_catalog_and_schema("a/b/c"), Some(("a".to_string(), "b".to_string())));
    assert_eq!(get_catalog_and_schema("\u{e4}/\u{df}"), Some(("\u{e4}".to_string(), "\u{df}".to_string())));
}

#[test]
fn tasks_of_one_physical_table() {
    let tasks = [
        task(METRIC_ENGINE, "public", Some("phy")),
        task("metric", "public", Some("phy")),
    ];
    let name = check_physical_table_name(&tasks).unwrap();
    assert_eq!(
        name,
        TableName {
            catalog: "greptime".to_string(),
            schema: "public".to_string(),
            table: "phy".to_string()
        }
    );
    assert_eq!(table_id_of(&name, Some(1024)).unwrap(), 1024);
    match table_id_of(&name, None) {
        Err(Error::TableNotFound { table_name }) => assert_eq!(table_name, "greptime.public.phy"),
        other => panic!("unexpected {:?}", other),
    }
}

#[test]
fn tasks_that_are_not_supported() {
    let good = || task("metric", "public", Some("phy"));
    assert_eq!(
        unsupported(&[good(), task("mito", "public", None)]),
        "create table with engine mito"
    );
    assert_eq!(
        unsupported(&[good(), task("metric", "public", None)]),
        "create table without table options on_physical_table"
    );
    assert_eq!(
        unsupported(&[good(), good(), task("metric", "other", Some("phy")), task("mito", "", None)]),
        "create table with different physical table name __table_name/greptime/public/phy \
         and __table_name/greptime/other/phy"
    );
}

#[test]
fn errors_with_and_without_peer_context() {
    let peer = || Peer { id: 3, addr: "127.0.0.1:4001".to_string() };
    let retry = Error::RetryLater { reason: "busy".to_string() };
    let retry = add_peer_context_if_needed(peer())(retry);
    assert!(retry.is_retry_later());
    assert!(matches!(handle_retry_error(retry), ProcedureError::RetryLater { .. }));

    let failed = Error::External { reason: "gone".to_string() };
    let failed = add_peer_context_if_needed(peer())(failed);
    match &failed {
        Error::OperateDatanode { peer: at, source } => {
            assert_eq!(*at, peer());
            assert!(matches!(**source, Error::External { .. }));
        }
        other => panic!("unexpected {:?}", other),
    }
    assert!(!failed.is_retry_later());
    assert!(matches!(handle_retry_error(failed), ProcedureError::External { .. }));
}

#[test]
fn regions_with_a_leader_are_watched() {
    let route = |number, leader: Option<u64>| RegionRoute {
        region: Region { id: RegionId::new(7, number) },
        leader_peer: leader.map(Peer::empty),
    };
    let routes = [route(0, Some(5)), route(1, None), route(2, Some(4)), route(3, Some(5))];
    assert_eq!(
        convert_region_routes_to_detecting_regions(&routes),
        vec![
            (5, RegionId::new(7, 0)),
            (4, RegionId::new(7, 2)),
            (5, RegionId::new(7, 3))
        ]
    );
    assert!(convert_region_routes_to_detecting_regions(&[]).is_empty());
}

#[test]
fn region_ids_as_numbers() {
    assert_eq!(RegionId::new(1, 2).as_u64(), 4294967298);
    assert_eq!(RegionId::from_u64(4294967298), RegionId::new(1, 2));
    assert_eq!(RegionId::new(u32::MAX, u32::MAX).as_u64(), u64::MAX);
    assert_ne!(RegionId::new(1, 0), RegionId::new(0, 1));
}

fn provider(text: &str) -> Result<String, String> {
    match text.strip_prefix("wal:") {
        Some(name) => Ok(name.to_string()),
        None => Err(format!("no prefix in {text}")),
    }
}

fn texts(pairs: &[(u32, &str)]) -> HashMap<u32, String> {
    pairs.iter().map(|(k, v)| (*k, v.to_string())).collect()
}

#[test]
fn wal_options_of_one_value() {
    let options = parse_region_wal_options(&texts(&[(1, "wal:a"), (2, "wal:b")]), provider).unwrap();
    assert_eq!(options, texts(&[(1, "a"), (2, "b")]));
    assert!(parse_region_wal_options(&texts(&[]), provider).unwrap().is_empty());
    match parse_region_wal_options(&texts(&[(1, "wal:a"), (2, "raft")]), provider) {
        Err(Error::ParseWalOptions { wal_options, reason }) => {
            assert_eq!(wal_options, "raft");
            assert_eq!(reason, "no prefix in raft");
        }
        other => panic!("unexpected {:?}", other),
    }
}

#[test]
fn later_wal_options_replace_earlier_ones() {
    let value = |pairs: &[(u32, &str)]| DatanodeTableValue { region_wal_options: texts(pairs) };
    let values = vec![
        value(&[(1, "wal:a"), (2, "wal:b")]),
        value(&[]),
        value(&[(2, "wal:c"), (3, "wal:d")]),
    ];
    let options = extract_region_wal_options(&values, provider).unwrap();
    assert_eq!(options, texts(&[(1, "a"), (2, "c"), (3, "d")]));

    let values = vec![value(&[(1, "wal:a")]), value(&[(9, "bad")]), value(&[(9, "worse")])];
    match extract_region_wal_options(&values, provider) {
        Err(Error::ParseWalOptions { wal_options, .. }) => assert_eq!(wal_options, "bad"),
        other => panic!("unexpected {:?}", other),
    }
}

#[test]
fn string_maps_keep_one_value_for_a_key() {
    let mut map = StringMap::new();
    assert_eq!(map.insert("a".to_string(), 1), None);
    assert_eq!(map.insert("b".to_string(), 2), None);
    assert_eq!(map.insert("a".to_string(), 3), Some(1));
    assert_eq!(map.insert("a".to_string(), 4), Some(3));
    assert_eq!(map.get("a"), Some(&4));
    assert_eq!(map.get("b"), Some(&2));
    assert_eq!(map.get("c"), None);
}

#[test]
fn texts_are_written_and_cut() {
    assert_eq!(decimal_string(0), "0");
    assert_eq!(decimal_string(10), "10");
    assert_eq!(decimal_string(1234567890), "1234567890");
    assert_eq!(decimal_string(u64::MAX), "18446744073709551615");
    assert_eq!(trim_text(" \t a b\u{3000}\n"), "a b");
    assert_eq!(trim_text(" \n "), "");
    assert_eq!(split_text("a,,b,", ','), vec!["a", "", "b", ""]);
    assert_eq!(split_text("", ','), vec![""]);
    for number in 0..0x11_0000u32 {
        if let Some(c) = char::from_u32(number) {
            assert_eq!(white_space(c), c.is_whitespace());
        }
    }
}

#[test]
fn written_options_come_back() {
    let options = texts(&[(0, "a"), (7, ""), (u32::MAX, "c d")]);
    let written = options.iter().map(|(k, v)| (*k, format!("wal:{v}"))).collect();
    assert_eq!(parse_region_wal_options(&written, provider).unwrap(), options);
}
