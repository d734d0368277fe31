use vstd::prelude::*;

use crate::text::same_text;

verus! {

/// What a node does: accept connections, or open them.
#[derive(Clone, Copy, Debug, PartialEq, Eq, Structural)]
pub enum Role {
    Listener,
    Sender,
}

/// Why a role and a list of addresses do not make a node.
#[derive(Clone, Copy, Debug, PartialEq, Eq, Structural)]
pub enum ConfigError {
    /// The role is neither `listener` nor `sender`.
    UnknownRole,
    /// No address was given.
    NoAddress,
    /// A listener was given more than one address.
    ListenerNeedsOneAddress,
}

/// The role that a name stands for.
pub open spec fn role_named(name: Seq<char>) -> Option<Role> {
    if name == "listener"@ {
        Some(Role::Listener)
    } else if name == "sender"@ {
        Some(Role::Sender)
    } else {
        None
    }
}

/// The role of a node named `name` with `n` addresses, or why there is none:
/// a listener needs exactly one address, a sender at least one.
pub open spec fn config_outcome(name: Seq<char>, n: nat) -> Result<Role, ConfigError> {
    match role_named(name) {
        None => Err(ConfigError::UnknownRole),
        Some(role) => if n == 0 {
            Err(ConfigError::NoAddress)
        } else if role == Role::Listener && n > 1 {
            Err(ConfigError::ListenerNeedsOneAddress)
        } else {
            Ok(role)
        },
    }
}

/// Reads a role from its name.
pub fn parse_role(name: &str) -> (r: Option<Role>)
    ensures
        r == role_named(name@),
{
    if same_text(name, "listener") {
        Some(Role::Listener)
    } else if same_text(name, "sender") {
        Some(Role::Sender)
    } else {
        None
    }
}

/// A node's role and the addresses it listens on or connects to.
pub struct NodeConfig {
    pub role: Role,
    pub addresses: Vec<String>,
}

impl NodeConfig {
    /// Checks a role name and its addresses.
    pub fn new(role: &str, addresses: Vec<String>) -> (r: Result<NodeConfig, ConfigError>)
        ensures
            match r {
                Ok(c) => {
                    &&& config_outcome(role@, addresses@.len()) == Ok::<Role, ConfigError>(c.role)
                    &&& c.addresses@ == addresses@
                },
                Err(e) => config_outcome(role@, addresses@.len()) == Err::<Role, ConfigError>(e),
            },
    {
        let parsed = match parse_role(role) {
            None => return Err(ConfigError::UnknownRole),
            Some(p) => p,
        };
        if addresses.len() == 0 {
            return Err(ConfigError::NoAddress);
        }
        if parsed == Role::Listener && addresses.len() > 1 {
            return Err(ConfigError::ListenerNeedsOneAddress);
        }
        Ok(NodeConfig { role: parsed, addresses })
    }
}

} // verus!
