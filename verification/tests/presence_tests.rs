use chat::channel::create_channel;
use chat::message::create_message;
use chat::presence::{signal_chatters, signal_specific_chatters, PresenceRegistry, SignalPayload};
use chat::store::Store;
use chat::types::{Channel, ChatError};
use chat::{agent_stats, recv_remote_signal, startup_access_policy, stats};

const WINDOW: u64 = 300;

#[test]
fn refresh_makes_a_chatter_active_until_the_window_elapses() {
    let mut reg = PresenceRegistry::new();
    reg.refresh_chatter(11, 1000);
    let active = reg.get_active_chatters(1000, WINDOW);
    assert_eq!(active.chatters, vec![11]);
    // Still inside the window.
    let active = reg.get_active_chatters(1000 + WINDOW, WINDOW);
    assert_eq!(active.chatters, vec![11]);
    // One past the window, with no further refresh: excluded.
    let active = reg.get_active_chatters(1001 + WINDOW, WINDOW);
    assert_eq!(active.chatters, Vec::<u64>::new());
    // A new refresh brings the identity back without duplicating it.
    reg.refresh_chatter(11, 2000);
    let active = reg.get_active_chatters(2000, WINDOW);
    assert_eq!(active.chatters, vec![11]);
    let (agents, active_count) = reg.agent_stats(2000, WINDOW);
    assert_eq!((agents, active_count), (1, 1));
}

#[test]
fn agent_stats_count_everyone_but_activity_only_recent() {
    let mut reg = PresenceRegistry::new();
    reg.refresh_chatter(1, 100);
    reg.refresh_chatter(2, 150);
    reg.refresh_chatter(3, 5000);
    let r = agent_stats(&reg, 5000, WINDOW);
    assert_eq!(r.agents, 3);
    assert_eq!(r.active, 1);
}

#[test]
fn broadcasts_reach_every_active_chatter_except_the_author() {
    let mut reg = PresenceRegistry::new();
    reg.refresh_chatter(1, 100);
    reg.refresh_chatter(2, 110);
    reg.refresh_chatter(3, 120);
    let r = signal_chatters(&reg, 2, 120, WINDOW);
    assert_eq!(r.sent, vec![1, 3]);
    assert_eq!(r.total, 2);
    // A stale chatter is not notified either.
    let r = signal_chatters(&reg, 2, 110 + WINDOW + 1, WINDOW);
    assert_eq!(r.sent, vec![3]);
    assert_eq!(r.total, 1);
}

#[test]
fn targeted_signals_go_to_exactly_the_named_identities() {
    let targets = vec![4, 8, 15];
    let r = signal_specific_chatters(&targets);
    assert_eq!(r.sent, targets);
    assert_eq!(r.total, 3);
}

#[test]
fn inbound_signals_forward_decoded_payloads_and_reject_garbage() {
    let mut store = Store::new();
    let data =
        create_channel(&mut store, chan("general", "intro"), b"Welcome".to_vec(), 7, 100);
    let forwarded = recv_remote_signal(Some(SignalPayload::Channel(data)));
    match forwarded {
        Ok(SignalPayload::Channel(d)) => {
            assert_eq!(d.channel.channel_id, b"intro".to_vec());
            assert_eq!(d.info.name, b"Welcome".to_vec());
        },
        _ => panic!("expected the channel payload back"),
    }
    assert!(matches!(recv_remote_signal(None), Err(ChatError::DecodeError)));
    // The startup grant keeps this entry point open to strangers.
    assert!(startup_access_policy().recv_remote_signal_unrestricted);
}

#[test]
fn combined_stats_join_registry_and_directory() {
    let mut store = Store::new();
    let mut reg = PresenceRegistry::new();
    reg.refresh_chatter(1, 100);
    reg.refresh_chatter(2, 90);
    let c = chan("general", "intro");
    create_channel(&mut store, chan("general", "intro"), b"Welcome".to_vec(), 1, 10);
    create_message(&mut store, &c, 0, b"hi".to_vec(), 1, 11).unwrap();
    let r = stats(&store, &reg, &b"general".to_vec(), 100, WINDOW);
    assert_eq!(r.agents, 2);
    assert_eq!(r.active, 2);
    assert_eq!(r.channels, 1);
    assert_eq!(r.messages, 1);
}

fn chan(category: &str, id: &str) -> Channel {
    Channel { category: category.as_bytes().to_vec(), channel_id: id.as_bytes().to_vec() }
}
