//! Extensions compiled into the server: the hooks a plugin offers, and the
//! registry of the plugins that are on. The registry is active exactly
//! while some plugin is registered since the last shutdown.
use vstd::prelude::*;
use crate::context::DnsContext;
use crate::dns_error::LookupError;
use crate::request::DnsRequest;
use crate::response::DnsResponse;
use crate::syslog::Level;

verus! {

/// The hooks of an extension: told of each answered query, of log lines
/// and of audit lines, and asked whether it needs the client's MAC
/// address. An extension implements the ones it uses.
pub trait Plugin {
    fn query_complete(&self, ctx: &DnsContext, request: &DnsRequest, response: &Result<DnsResponse, LookupError>,
        elapsed_micros: u64, mac: Option<&str>);

    fn log(&self, level: Level, message: &str);

    fn audit(&self, message: &str);

    fn needs_mac(&self) -> bool;
}

/// Whether the MAC address of clients is looked up for the plugins: the
/// registry is active and some plugin needs it (`needs[i]` is what plugin
/// `i` answered).
pub open spec fn spec_wants_mac(active: bool, needs: Seq<bool>) -> bool {
    active && exists|i: int| 0 <= i < needs.len() && needs[i]
}

/// Whether the MAC address is wanted, from the plugins' answers.
pub fn wants_mac_of(active: bool, needs: &Vec<bool>) -> (r: bool)
    ensures
        r == spec_wants_mac(active, needs@),
{
    if !active {
        return false;
    }
    let mut i: usize = 0;
    while i < needs.len()
        invariant
            i <= needs@.len(),
            active,
            forall|j: int| 0 <= j < i ==> !needs@[j],
        decreases needs.len() - i,
    {
        if needs[i] {
            assert(needs@[i as int]);
            return true;
        }
        i = i + 1;
    }
    false
}

/// The registered plugins, in the order of registration.
pub struct PluginRegistry<P: Plugin> {
    plugins: Vec<P>,
}

impl<P: Plugin> PluginRegistry<P> {
    pub closed spec fn spec_plugins(&self) -> Seq<P> {
        self.plugins@
    }

    /// Active: some plugin is registered since the last shutdown.
    pub closed spec fn spec_active(&self) -> bool {
        self.plugins@.len() > 0
    }

    /// A registry without plugins.
    pub fn new() -> (r: Self)
        ensures
            r.spec_plugins().len() == 0,
            !r.spec_active(),
    {
        PluginRegistry { plugins: Vec::new() }
    }

    /// Adds a plugin after the others; the registry becomes active.
    pub fn register(&mut self, plugin: P)
        ensures
            final(self).spec_plugins() == old(self).spec_plugins().push(plugin),
            final(self).spec_active(),
    {
        self.plugins.push(plugin);
    }

    /// Drops every plugin; the registry is no longer active.
    pub fn shutdown(&mut self)
        ensures
            final(self).spec_plugins().len() == 0,
            !final(self).spec_active(),
    {
        self.plugins = Vec::new();
    }

    /// Whether some plugin is registered since the last shutdown.
    pub fn active(&self) -> (r: bool)
        ensures
            r == self.spec_active(),
            r <==> self.spec_plugins().len() > 0,
    {
        self.plugins.len() > 0
    }

    pub fn len(&self) -> (r: usize)
        ensures
            r == self.spec_plugins().len(),
    {
        self.plugins.len()
    }

    /// Whether the registry is active and some plugin needs the MAC
    /// address: the plugins are asked in order, and [`wants_mac_of`] decides
    /// on their answers.
    pub fn wants_mac(&self) -> (r: bool)
        ensures
            r ==> self.spec_active() && self.spec_plugins().len() > 0,
            exists|needs: Seq<bool>| needs.len() == self.spec_plugins().len() && r == spec_wants_mac(
                self.spec_active(),
                needs,
            ),
    {
        let active = self.plugins.len() > 0;
        if !active {
            let ghost none = Seq::<bool>::new(self.plugins@.len(), |i: int| false);
            assert(none.len() == self.spec_plugins().len() && no_mac_wanted(self.spec_active(), none));
            return false;
        }
        let mut needs: Vec<bool> = Vec::new();
        let mut i: usize = 0;
        while i < self.plugins.len()
            invariant
                i <= self.plugins@.len(),
                needs@.len() == i,
            decreases self.plugins.len() - i,
        {
            needs.push(self.plugins[i].needs_mac());
            i = i + 1;
        }
        let r = wants_mac_of(active, &needs);
        assert(needs@.len() == self.spec_plugins().len());
        r
    }

    /// Tells every plugin, in order, of an answered query, while the
    /// registry is active.
    pub fn completed(&self, ctx: &DnsContext, request: &DnsRequest, response: &Result<DnsResponse, LookupError>,
        elapsed_micros: u64, mac: Option<&str>) {
        if self.plugins.len() == 0 {
            return;
        }
        let mut i: usize = 0;
        while i < self.plugins.len()
            invariant
                i <= self.plugins@.len(),
            decreases self.plugins.len() - i,
        {
            self.plugins[i].query_complete(ctx, request, response, elapsed_micros, mac);
            i = i + 1;
        }
    }

    /// Hands a log line to every plugin, in order.
    pub fn log(&self, level: Level, message: &str) {
        let mut i: usize = 0;
        while i < self.plugins.len()
            invariant
                i <= self.plugins@.len(),
            decreases self.plugins.len() - i,
        {
            self.plugins[i].log(level, message);
            i = i + 1;
        }
    }

    /// Hands an audit line to every plugin, in order.
    pub fn audit(&self, message: &str) {
        let mut i: usize = 0;
        while i < self.plugins.len()
            invariant
                i <= self.plugins@.len(),
            decreases self.plugins.len() - i,
        {
            self.plugins[i].audit(message);
            i = i + 1;
        }
    }
}

spec fn no_mac_wanted(active: bool, needs: Seq<bool>) -> bool {
    !spec_wants_mac(active, needs)
}

} // verus!
