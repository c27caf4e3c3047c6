use chat::channel::{create_channel, list_channels, channel_stats};
use chat::message::{create_message, discover_frontier, list_messages};
use chat::store::{Store, StoredRecord};
use chat::types::Channel;

fn chan(category: &str, id: &str) -> Channel {
    Channel { category: category.as_bytes().to_vec(), channel_id: id.as_bytes().to_vec() }
}

#[test]
fn created_channel_is_listed_once_at_chunk_zero() {
    let mut store = Store::new();
    let data = create_channel(&mut store, chan("general", "intro"), b"Welcome".to_vec(), 7, 100);
    assert_eq!(data.channel.category, b"general".to_vec());
    assert_eq!(data.channel.channel_id, b"intro".to_vec());
    assert_eq!(data.info.name, b"Welcome".to_vec());
    assert_eq!(data.info.created_by, 7);
    assert_eq!(data.info.created_at, 100);
    assert_eq!(data.latest_chunk, 0);

    let listed = list_channels(&store, &b"general".to_vec());
    assert_eq!(listed.len(), 1);
    assert_eq!(listed[0].channel.category, b"general".to_vec());
    assert_eq!(listed[0].channel.channel_id, b"intro".to_vec());
    assert_eq!(listed[0].info.name, b"Welcome".to_vec());
    assert_eq!(listed[0].latest_chunk, 0);
}

#[test]
fn channel_without_info_links_is_skipped() {
    let mut store = Store::new();
    // Materialize the path alone: no info record is ever linked.
    let ghost_channel = chan("general", "ghost");
    store.ensure_channel(&ghost_channel, 5);
    let listed = list_channels(&store, &b"general".to_vec());
    assert_eq!(listed.len(), 0);
    // A real channel beside it still resolves.
    create_channel(&mut store, chan("general", "real"), b"Real".to_vec(), 1, 10);
    let listed = list_channels(&store, &b"general".to_vec());
    assert_eq!(listed.len(), 1);
    assert_eq!(listed[0].channel.channel_id, b"real".to_vec());
}

#[test]
fn latest_timestamp_wins_regardless_of_creation_order() {
    let mut store = Store::new();
    create_channel(&mut store, chan("general", "intro"), b"First".to_vec(), 1, 100);
    create_channel(&mut store, chan("general", "intro"), b"Second".to_vec(), 2, 300);
    create_channel(&mut store, chan("general", "intro"), b"Third".to_vec(), 3, 200);
    let listed = list_channels(&store, &b"general".to_vec());
    // Duplicate creations are tolerated: still exactly one entry.
    assert_eq!(listed.len(), 1);
    // The greatest timestamp wins, not the last written.
    assert_eq!(listed[0].info.name, b"Second".to_vec());
    assert_eq!(listed[0].info.created_at, 300);
}

#[test]
fn chunk_discovery_is_idempotent() {
    let mut store = Store::new();
    let c = chan("general", "intro");
    create_channel(&mut store, chan("general", "intro"), b"Welcome".to_vec(), 1, 10);
    assert_eq!(discover_frontier(&store, &c), 0);
    assert_eq!(discover_frontier(&store, &c), 0);
    create_message(&mut store, &c, 0, b"hi".to_vec(), 1, 11).unwrap();
    let first = discover_frontier(&store, &c);
    let second = discover_frontier(&store, &c);
    assert_eq!(first, 1);
    assert_eq!(first, second);
}

#[test]
fn stats_count_all_chunks_up_to_first_empty() {
    let mut store = Store::new();
    let c = chan("general", "intro");
    create_channel(&mut store, chan("general", "intro"), b"Welcome".to_vec(), 1, 10);
    create_message(&mut store, &c, 0, b"a".to_vec(), 1, 11).unwrap();
    create_message(&mut store, &c, 0, b"b".to_vec(), 2, 12).unwrap();
    create_message(&mut store, &c, 1, b"c".to_vec(), 1, 13).unwrap();
    let d = chan("general", "other");
    create_channel(&mut store, chan("general", "other"), b"Other".to_vec(), 1, 14);
    create_message(&mut store, &d, 0, b"d".to_vec(), 3, 15).unwrap();
    let (channels, messages) = channel_stats(&store, &b"general".to_vec());
    assert_eq!(channels, 2);
    // Chunks 0 and 1 of "intro" hold 2 + 1 links, chunk 0 of "other" holds 1.
    assert_eq!(messages, 4);
    // The frontier of "intro" sits past its two occupied chunks.
    assert_eq!(discover_frontier(&store, &c), 2);
}

#[test]
fn appending_to_later_chunks_raises_latest_chunk() {
    let mut store = Store::new();
    let c = chan("general", "intro");
    create_channel(&mut store, chan("general", "intro"), b"Welcome".to_vec(), 1, 10);
    create_message(&mut store, &c, 0, b"a".to_vec(), 1, 11).unwrap();
    create_message(&mut store, &c, 1, b"b".to_vec(), 1, 12).unwrap();
    let listed = list_channels(&store, &b"general".to_vec());
    assert_eq!(listed.len(), 1);
    assert_eq!(listed[0].latest_chunk, 1);
}

#[test]
fn concrete_scenario_general_intro_welcome() {
    let mut store = Store::new();
    let c = chan("general", "intro");
    let data = create_channel(&mut store, chan("general", "intro"), b"Welcome".to_vec(), 42, 1000);
    assert_eq!(data.channel.category, b"general".to_vec());
    assert_eq!(data.channel.channel_id, b"intro".to_vec());
    assert_eq!(data.info.name, b"Welcome".to_vec());
    assert_eq!(data.info.created_by, 42);
    assert_eq!(data.info.created_at, 1000);
    assert_eq!(data.latest_chunk, 0);

    let md = create_message(&mut store, &c, 0, b"hi".to_vec(), 42, 1001).unwrap();
    assert_eq!(md.message.content, b"hi".to_vec());
    assert_eq!(md.created_by, 42);
    assert_eq!(md.created_at, 1001);

    let msgs = list_messages(&store, &c, 0);
    assert_eq!(msgs.len(), 1);
    assert_eq!(msgs[0].content, b"hi".to_vec());

    let (channels, messages) = channel_stats(&store, &b"general".to_vec());
    assert_eq!((channels, messages), (1, 1));
}

#[test]
fn listings_are_scoped_to_their_category() {
    let mut store = Store::new();
    create_channel(&mut store, chan("general", "intro"), b"Welcome".to_vec(), 1, 10);
    create_channel(&mut store, chan("random", "noise"), b"Noise".to_vec(), 1, 11);
    let general = list_channels(&store, &b"general".to_vec());
    let random = list_channels(&store, &b"random".to_vec());
    let empty = list_channels(&store, &b"missing".to_vec());
    assert_eq!(general.len(), 1);
    assert_eq!(general[0].channel.channel_id, b"intro".to_vec());
    assert_eq!(random.len(), 1);
    assert_eq!(random[0].channel.channel_id, b"noise".to_vec());
    assert_eq!(empty.len(), 0);
}

#[test]
fn messages_keep_store_order_within_a_chunk() {
    let mut store = Store::new();
    let c = chan("general", "intro");
    create_channel(&mut store, chan("general", "intro"), b"Welcome".to_vec(), 1, 10);
    create_message(&mut store, &c, 0, b"one".to_vec(), 1, 30).unwrap();
    create_message(&mut store, &c, 0, b"two".to_vec(), 2, 20).unwrap();
    create_message(&mut store, &c, 0, b"three".to_vec(), 3, 10).unwrap();
    let msgs = list_messages(&store, &c, 0);
    assert_eq!(msgs.len(), 3);
    assert_eq!(msgs[0].content, b"one".to_vec());
    assert_eq!(msgs[1].content, b"two".to_vec());
    assert_eq!(msgs[2].content, b"three".to_vec());
    // A chunk nobody wrote to lists nothing.
    assert_eq!(list_messages(&store, &c, 5).len(), 0);
}

#[test]
fn records_resolve_by_their_hash() {
    let mut store = Store::new();
    let c = chan("general", "intro");
    create_channel(&mut store, chan("general", "intro"), b"Welcome".to_vec(), 1, 10);
    let md = create_message(&mut store, &c, 0, b"hi".to_vec(), 1, 11).unwrap();
    match store.get_record(md.record_hash) {
        Some(StoredRecord::Msg(m)) => assert_eq!(m.content, b"hi".to_vec()),
        _ => panic!("expected the message record"),
    }
    assert!(store.get_record(1000).is_none());
}

#[test]
fn equal_timestamps_keep_the_first_info_seen() {
    let mut store = Store::new();
    create_channel(&mut store, chan("general", "intro"), b"First".to_vec(), 1, 500);
    create_channel(&mut store, chan("general", "intro"), b"Second".to_vec(), 2, 500);
    let listed = list_channels(&store, &b"general".to_vec());
    assert_eq!(listed.len(), 1);
    // A tie is broken deterministically for the earliest link enumerated.
    assert_eq!(listed[0].info.name, b"First".to_vec());
}
