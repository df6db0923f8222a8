//! The outlet behind a server: where the traffic of its clients goes on from there.

use vstd::prelude::*;

use crate::shadowsocks::SsConfig;
use crate::text::{cut, decimal, law_cut_at_first, push_decimal, push_text, string_of};
use crate::wg::WgConfig;

verus! {

/// What a server does with datagrams where it has an outlet.
#[derive(Clone, Copy, PartialEq, Eq, Structural, Debug)]
pub enum UdpPolicy {
    /// They go through the outlet's tunnel.
    Tunnel,
    /// They leave from the server itself.
    Direct,
    /// They are refused.
    Block,
}

/// A WireGuard outlet.
pub struct WgUpstream {
    pub cfg: WgConfig,
    pub udp: UdpPolicy,
}

impl WgUpstream {
    /// An outlet whose tunnel is not up yet.
    pub fn new(cfg: WgConfig, udp: UdpPolicy) -> (r: WgUpstream)
        ensures
            r.cfg == cfg,
            r.udp == udp,
    {
        WgUpstream { cfg, udp }
    }
}

/// The outlet behind a server.
pub enum UpstreamOutlet {
    Shadowsocks(SsConfig),
    Wireguard(WgUpstream),
}

/// What an outlet does with datagrams. Shadowsocks carries none, so they are refused unless they
/// may leave from the server itself; WireGuard does what it is told.
pub open spec fn policy(u: UpstreamOutlet) -> UdpPolicy {
    match u {
        UpstreamOutlet::Shadowsocks(ss) => if ss.block_udp {
            UdpPolicy::Block
        } else {
            UdpPolicy::Direct
        },
        UpstreamOutlet::Wireguard(wg) => wg.udp,
    }
}

/// What is logged of an outlet.
pub open spec fn description(u: UpstreamOutlet) -> Seq<char> {
    match u {
        UpstreamOutlet::Shadowsocks(ss) => "Shadowsocks "@ + ss.server@ + seq![':'] + decimal(ss.port as nat),
        UpstreamOutlet::Wireguard(wg) => "WireGuard "@ + wg.cfg.endpoint@,
    }
}

impl UpstreamOutlet {
    /// What the outlet does with datagrams.
    pub fn udp_policy(&self) -> (r: UdpPolicy)
        ensures
            r == policy(*self),
    {
        match self {
            UpstreamOutlet::Shadowsocks(ss) => {
                if ss.block_udp {
                    UdpPolicy::Block
                } else {
                    UdpPolicy::Direct
                }
            },
            UpstreamOutlet::Wireguard(wg) => wg.udp,
        }
    }

    /// Whether datagrams are refused.
    pub fn block_udp(&self) -> (r: bool)
        ensures
            r == (policy(*self) is Block),
    {
        match self.udp_policy() {
            UdpPolicy::Block => true,
            _ => false,
        }
    }

    /// What is logged of the outlet.
    pub fn describe(&self) -> (r: String)
        ensures
            r@ == description(*self),
    {
        let mut out: Vec<char> = Vec::new();
        match self {
            UpstreamOutlet::Shadowsocks(ss) => {
                push_text(&mut out, "Shadowsocks ");
                push_text(&mut out, ss.server.as_str());
                out.push(':');
                push_decimal(&mut out, ss.port as u64);
            },
            UpstreamOutlet::Wireguard(wg) => {
                push_text(&mut out, "WireGuard ");
                push_text(&mut out, wg.cfg.endpoint.as_str());
            },
        }
        assert(out@ =~= description(*self));
        string_of(out.as_slice())
    }
}

/// Datagrams never leave from another address than streams without being told to: through
/// Shadowsocks they are refused by default.
pub proof fn law_shadowsocks_refuses(ss: SsConfig)
    requires
        ss.block_udp,
    ensures
        policy(UpstreamOutlet::Shadowsocks(ss)) is Block,
{
}

/// What happens to datagrams is what is configured: through WireGuard one of three things, through
/// Shadowsocks one of two, and never through its tunnel.
pub proof fn law_policies(ss: SsConfig, wg: WgUpstream)
    ensures
        policy(UpstreamOutlet::Wireguard(wg)) == wg.udp,
        !ss.block_udp ==> policy(UpstreamOutlet::Shadowsocks(ss)) is Direct,
        !(policy(UpstreamOutlet::Shadowsocks(ss)) is Tunnel),
{
}

/// What is logged of an outlet is its protocol, a blank, and where it leads: the server and its port, or
/// the endpoint.
pub proof fn law_descriptions(ss: SsConfig, wg: WgUpstream)
    ensures
        cut(description(UpstreamOutlet::Shadowsocks(ss)), ' ') == Some(
            ("Shadowsocks"@, ss.server@ + seq![':'] + decimal(ss.port as nat)),
        ),
        cut(description(UpstreamOutlet::Wireguard(wg)), ' ') == Some(("WireGuard"@, wg.cfg.endpoint@)),
{
    reveal_strlit("Shadowsocks ");
    reveal_strlit("Shadowsocks");
    reveal_strlit("WireGuard ");
    reveal_strlit("WireGuard");
    let to = ss.server@ + seq![':'] + decimal(ss.port as nat);
    law_cut_at_first("Shadowsocks"@, ' ', to);
    law_cut_at_first("WireGuard"@, ' ', wg.cfg.endpoint@);
    assert(description(UpstreamOutlet::Shadowsocks(ss)) =~= "Shadowsocks"@ + seq![' '] + to);
    assert(description(UpstreamOutlet::Wireguard(wg)) =~= "WireGuard"@ + seq![' '] + wg.cfg.endpoint@);
}

} // verus!
