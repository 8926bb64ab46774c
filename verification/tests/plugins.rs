use smartdns::context::DnsContext;
use smartdns::dns_error::LookupError;
use smartdns::plugins::{wants_mac_of, Plugin, PluginRegistry};
use smartdns::request::DnsRequest;
use smartdns::response::DnsResponse;
use smartdns::syslog::Level;
use std::cell::Cell;

struct Counter {
    mac: bool,
    logs: Cell<usize>,
    audits: Cell<usize>,
}

impl Plugin for Counter {
    fn query_complete(&self, _ctx: &DnsContext, _request: &DnsRequest, _response: &Result<DnsResponse, LookupError>,
        _elapsed_micros: u64, _mac: Option<&str>) {
    }

    fn log(&self, _level: Level, _message: &str) {
        self.logs.set(self.logs.get() + 1);
    }

    fn audit(&self, _message: &str) {
        self.audits.set(self.audits.get() + 1);
    }

    fn needs_mac(&self) -> bool {
        self.mac
    }
}

fn counter(mac: bool) -> Counter {
    Counter { mac, logs: Cell::new(0), audits: Cell::new(0) }
}

#[test]
fn the_registry_is_active_while_plugins_are_registered() {
    let mut registry = PluginRegistry::new();
    assert!(!registry.active());
    assert!(!registry.wants_mac());
    registry.register(counter(false));
    assert!(registry.active());
    assert!(!registry.wants_mac());
    registry.register(counter(true));
    assert!(registry.wants_mac());
    registry.log(Level::Info, "hello");
    registry.audit("line");
    registry.shutdown();
    assert!(!registry.active());
    assert!(!registry.wants_mac());
    assert_eq!(registry.len(), 0);
}

#[test]
fn mac_lookups_follow_the_plugins_answers() {
    assert!(wants_mac_of(true, &vec![false, true]));
    assert!(!wants_mac_of(true, &vec![false, false]));
    assert!(!wants_mac_of(false, &vec![true]));
}
