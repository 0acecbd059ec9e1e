//! The settings that the bridge runs with.

use vstd::prelude::*;
use vstd::string::*;

verus! {

/// An IP address, as its number.
#[derive(Debug, Clone, Copy, PartialEq, Eq, Structural)]
pub enum IpAddress {
    V4(u32),
    V6(u128),
}

/// The whole configuration.
#[derive(Debug)]
pub struct Config {
    pub cmi: CmiConfig,
    pub asterisk: AsteriskConfig,
}

/// The configuration as the file states it.
#[derive(Debug)]
pub struct ConfigData {
    pub cmi: CmiConfigData,
    pub asterisk: AsteriskConfig,
}

/// Where CoE datagrams come from, and which of their values is watched.
#[derive(Debug, Clone, Copy, PartialEq, Eq, Structural)]
pub struct CmiConfig {
    /// listen on this address
    pub listen_addr: IpAddress,
    /// only datagrams from this address count
    pub expect_from_addr: IpAddress,
    /// the CAN node whose values count
    pub expect_index: u8,
    /// the PDO whose values count, as the device's own settings number it
    pub expect_pdo: u8,
    /// when true, the circuit rests in ON and OFF is an alarm; when false,
    /// it rests in OFF and ON is an alarm
    pub circuit_is_normally_closed: bool,
}

/// [`CmiConfig`] as the file states it, with the addresses as text.
#[derive(Debug)]
pub struct CmiConfigData {
    pub listen_addr: String,
    pub expect_from_addr: String,
    pub expect_index: u8,
    pub expect_pdo: u8,
    pub circuit_is_normally_closed: bool,
}

/// How to reach the telephony server, and what to call.
#[derive(Debug)]
pub struct AsteriskConfig {
    /// the host to connect to
    pub host: String,
    /// the port to connect to
    pub port: Option<u16>,
    /// the context to place a call in
    pub execute_context: String,
    /// the extension to call
    pub execute_exten: String,
    /// the priority to start at in the extension; "1" when absent
    pub execute_priority: Option<String>,
    /// a PEM file of further certificate authorities to trust
    pub trust_extra_pem: Option<String>,
    /// the login name
    pub username: String,
    /// the login secret
    pub secret: String,
    /// the channels to call on an alarm
    pub call_external_endpoints: Vec<String>,
    /// the caller id that the calls carry
    pub caller_id: String,
    /// how many times an alarm call is repeated while the alarm lasts; no
    /// limit when absent
    pub repeat_alarm: Option<u32>,
}

/// The priority that calls start at.
pub open spec fn priority_of(c: &AsteriskConfig) -> Seq<char> {
    match c.execute_priority {
        Some(p) => p@,
        None => "1"@,
    }
}

/// The action that places a call on `channel`.
pub open spec fn originate_text(c: &AsteriskConfig, channel: Seq<char>) -> Seq<char> {
    "Action: Originate\r\nExten: "@ + c.execute_exten@ + "\r\nContext: "@ + c.execute_context@
        + "\r\nPriority: "@ + priority_of(c) + "\r\nChannel: "@ + channel + "\r\nCallerID: "@
        + c.caller_id@ + "\r\nAsync: true\r\n\r\n"@
}

impl AsteriskConfig {
    /// The priority that calls start at.
    pub fn priority(&self) -> (r: &str)
        ensures
            r@ == priority_of(self),
    {
        match &self.execute_priority {
            Some(p) => p.as_str(),
            None => "1",
        }
    }

    /// The action that places a call on `channel` and lets it run on.
    pub fn originate_action(&self, channel: &str) -> (r: String)
        ensures
            r@ == originate_text(self, channel@),
    {
        let mut a = String::from_str("Action: Originate\r\nExten: ");
        a.append(self.execute_exten.as_str());
        a.append("\r\nContext: ");
        a.append(self.execute_context.as_str());
        a.append("\r\nPriority: ");
        a.append(self.priority());
        a.append("\r\nChannel: ");
        a.append(channel);
        a.append("\r\nCallerID: ");
        a.append(self.caller_id.as_str());
        a.append("\r\nAsync: true\r\n\r\n");
        a
    }
}

} // verus!
