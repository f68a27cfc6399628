use vstd::prelude::*;

verus! {

/// The server's settings.
#[derive(Debug)]
pub struct SettingsStruct {
    pub ignore_multiple_connections_per_ip: bool,
}

/// The settings the server starts with: several connections from one address are let in.
pub fn initial_settings() -> (s: SettingsStruct)
    ensures
        s.ignore_multiple_connections_per_ip,
{
    SettingsStruct { ignore_multiple_connections_per_ip: true }
}

} // verus!
