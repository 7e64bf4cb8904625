pub mod bootstrap;
pub mod bootstrap_laws;
pub mod buddy;
pub mod buddy_laws;
pub mod dht_common;
pub mod firewall;
pub mod ip_filter;
pub mod ip_filter_laws;
pub mod ip_text;
pub mod keywords;
pub mod legacy_challenge;
pub mod message_laws;
pub mod messages;
pub mod obfuscation;
pub mod obfuscation_laws;
pub mod protection;
pub mod protection_laws;
pub mod publish;
pub mod publish_laws;
pub mod routing;
pub mod routing_laws;
pub mod tags;
pub mod types;
pub mod zone;
