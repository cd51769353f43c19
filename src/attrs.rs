use vstd::prelude::*;

verus! {

/// The lease attributes that a profile records, in the order in which they
/// are written.
#[derive(Clone, Copy, Debug, PartialEq, Eq, Structural)]
pub enum Attr {
    BroadcastAddress,
    DomainNameServers,
    IpAddress,
    Routers,
    SubnetCidr,
}

/// How many attributes are recognised.
pub const ATTR_COUNT: usize = 5;

/// The attribute at position `i` of the recognised list.
pub open spec fn attr_at(i: int) -> Attr {
    if i == 0 {
        Attr::BroadcastAddress
    } else if i == 1 {
        Attr::DomainNameServers
    } else if i == 2 {
        Attr::IpAddress
    } else if i == 3 {
        Attr::Routers
    } else {
        Attr::SubnetCidr
    }
}

impl Attr {
    /// Position of the attribute in the recognised list.
    pub open spec fn index(self) -> int {
        match self {
            Attr::BroadcastAddress => 0,
            Attr::DomainNameServers => 1,
            Attr::IpAddress => 2,
            Attr::Routers => 3,
            Attr::SubnetCidr => 4,
        }
    }

    /// The name under which the lease tool reports the attribute.
    pub open spec fn spec_name(self) -> Seq<char> {
        match self {
            Attr::BroadcastAddress => "broadcast_address"@,
            Attr::DomainNameServers => "domain_name_servers"@,
            Attr::IpAddress => "ip_address"@,
            Attr::Routers => "routers"@,
            Attr::SubnetCidr => "subnet_cidr"@,
        }
    }

    pub fn name(&self) -> (r: &'static str)
        ensures
            r@ == self.spec_name(),
    {
        match self {
            Attr::BroadcastAddress => "broadcast_address",
            Attr::DomainNameServers => "domain_name_servers",
            Attr::IpAddress => "ip_address",
            Attr::Routers => "routers",
            Attr::SubnetCidr => "subnet_cidr",
        }
    }

    pub fn from_index(i: usize) -> (r: Attr)
        requires
            i < ATTR_COUNT,
        ensures
            r.index() == i,
            r == attr_at(i as int),
    {
        if i == 0 {
            Attr::BroadcastAddress
        } else if i == 1 {
            Attr::DomainNameServers
        } else if i == 2 {
            Attr::IpAddress
        } else if i == 3 {
            Attr::Routers
        } else {
            Attr::SubnetCidr
        }
    }
}

/// No two attributes share a name.
pub proof fn lemma_names_distinct(a: Attr, b: Attr)
    ensures
        a.spec_name() == b.spec_name() ==> a == b,
{
    reveal_strlit("broadcast_address");
    reveal_strlit("domain_name_servers");
    reveal_strlit("ip_address");
    reveal_strlit("routers");
    reveal_strlit("subnet_cidr");
    if a.spec_name() == b.spec_name() && a != b {
        assert(a.spec_name()[0] == b.spec_name()[0]);
        assert(a.spec_name().len() == b.spec_name().len());
    }
}

/// The recognised attributes with their values: at most one value each.
pub struct AttributeMap {
    broadcast_address: Option<String>,
    domain_name_servers: Option<String>,
    ip_address: Option<String>,
    routers: Option<String>,
    subnet_cidr: Option<String>,
}

/// The characters of an optional string.
pub open spec fn opt_view(o: Option<String>) -> Option<Seq<char>> {
    match o {
        Some(s) => Some(s@),
        None => None,
    }
}

fn clone_opt(o: &Option<String>) -> (r: Option<String>)
    ensures
        opt_view(r) == opt_view(*o),
{
    match o {
        Some(s) => Some(s.clone()),
        None => None,
    }
}

impl AttributeMap {
    /// The value held for `a`, if any.
    pub closed spec fn spec_get(&self, a: Attr) -> Option<Seq<char>> {
        match a {
            Attr::BroadcastAddress => opt_view(self.broadcast_address),
            Attr::DomainNameServers => opt_view(self.domain_name_servers),
            Attr::IpAddress => opt_view(self.ip_address),
            Attr::Routers => opt_view(self.routers),
            Attr::SubnetCidr => opt_view(self.subnet_cidr),
        }
    }

    /// A map with no values.
    pub fn new() -> (r: AttributeMap)
        ensures
            forall|a: Attr| (#[trigger] r.spec_get(a)) is None,
    {
        AttributeMap {
            broadcast_address: None,
            domain_name_servers: None,
            ip_address: None,
            routers: None,
            subnet_cidr: None,
        }
    }

    /// Sets the value of `a`, replacing any earlier one.
    pub fn insert(&mut self, a: Attr, value: String)
        ensures
            forall|b: Attr|
                #[trigger] final(self).spec_get(b) == if b == a {
                    Some(value@)
                } else {
                    old(self).spec_get(b)
                },
    {
        match a {
            Attr::BroadcastAddress => self.broadcast_address = Some(value),
            Attr::DomainNameServers => self.domain_name_servers = Some(value),
            Attr::IpAddress => self.ip_address = Some(value),
            Attr::Routers => self.routers = Some(value),
            Attr::SubnetCidr => self.subnet_cidr = Some(value),
        }
    }

    /// The value held for `a`, if any.
    pub fn get(&self, a: Attr) -> (r: Option<String>)
        ensures
            opt_view(r) == self.spec_get(a),
    {
        match a {
            Attr::BroadcastAddress => clone_opt(&self.broadcast_address),
            Attr::DomainNameServers => clone_opt(&self.domain_name_servers),
            Attr::IpAddress => clone_opt(&self.ip_address),
            Attr::Routers => clone_opt(&self.routers),
            Attr::SubnetCidr => clone_opt(&self.subnet_cidr),
        }
    }
}

} // verus!
