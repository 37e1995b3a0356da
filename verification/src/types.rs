//! The keys of packet dispatch: connection state and direction.

use crate::datatypes::strings::same_text;
use crate::decoding::DecodingError;
use vstd::prelude::*;

verus! {

/// Stage of a connection's life. A connection starts in `Handshake`, moves once
/// to `Status` or `Login`, and from `Login` once to `Play`.
#[derive(Clone, Copy, Debug, PartialEq, Eq, Hash, Structural)]
pub enum ClientState {
    Status,
    Handshake,
    Login,
    Play,
}

/// The connection state under the name that the dispatch functions use.
pub type PacketState = ClientState;

/// Who receives a packet: the client (`Clientbound`) or the server.
#[derive(Clone, Copy, Debug, PartialEq, Eq, Hash, Structural)]
pub enum PacketDirection {
    Clientbound,
    Serverbound,
}

/// One row of a table of packets, as the table's maker writes it down: the
/// name of the kind, the id, and the name of the packet's type.
#[derive(Clone, Debug, PartialEq, Eq, Hash)]
pub struct PacketMacroData<T> {
    pub variant: T,
    pub id: T,
    pub packet: T,
}

impl ClientState {
    /// Whether a connection in this state may go over to `next`: from
    /// `Handshake` to `Status` or to `Login`, from `Login` to `Play`, and in
    /// no other way.
    pub open spec fn leads_to(self, next: ClientState) -> bool {
        match (self, next) {
            (ClientState::Handshake, ClientState::Status) => true,
            (ClientState::Handshake, ClientState::Login) => true,
            (ClientState::Login, ClientState::Play) => true,
            _ => false,
        }
    }

    /// The state in which every connection starts.
    pub fn initial() -> (state: ClientState)
        ensures
            state == ClientState::Handshake,
    {
        ClientState::Handshake
    }

    /// Whether a connection in this state may go over to `next`.
    pub fn can_become(&self, next: ClientState) -> (r: bool)
        ensures
            r == self.leads_to(next),
    {
        match self {
            ClientState::Handshake => match next {
                ClientState::Status => true,
                ClientState::Login => true,
                _ => false,
            },
            ClientState::Login => match next {
                ClientState::Play => true,
                _ => false,
            },
            _ => false,
        }
    }

    /// The name of the state.
    pub open spec fn name(self) -> Seq<char> {
        match self {
            ClientState::Status => "Status"@,
            ClientState::Handshake => "Handshake"@,
            ClientState::Login => "Login"@,
            ClientState::Play => "Play"@,
        }
    }

    /// The state with the given name, where there is one.
    pub open spec fn named(name: Seq<char>) -> Option<ClientState> {
        if name == "Status"@ {
            Some(ClientState::Status)
        } else if name == "Handshake"@ {
            Some(ClientState::Handshake)
        } else if name == "Login"@ {
            Some(ClientState::Login)
        } else if name == "Play"@ {
            Some(ClientState::Play)
        } else {
            None
        }
    }

    /// The state with the name `s`, written exactly as the state is. A text
    /// that names no state is refused.
    pub fn from_str(s: &str) -> (r: Result<ClientState, DecodingError>)
        ensures
            r == match ClientState::named(s@) {
                Some(state) => Ok::<ClientState, DecodingError>(state),
                None => Err(DecodingError::UnsupportedDiscriminant),
            },
    {
        if same_text(s, "Status") {
            Ok(ClientState::Status)
        } else if same_text(s, "Handshake") {
            Ok(ClientState::Handshake)
        } else if same_text(s, "Login") {
            Ok(ClientState::Login)
        } else if same_text(s, "Play") {
            Ok(ClientState::Play)
        } else {
            Err(DecodingError::UnsupportedDiscriminant)
        }
    }

    /// The name of the state.
    pub fn to_string(&self) -> (s: String)
        ensures
            s@ == self.name(),
    {
        match self {
            ClientState::Status => "Status".to_owned(),
            ClientState::Handshake => "Handshake".to_owned(),
            ClientState::Login => "Login".to_owned(),
            ClientState::Play => "Play".to_owned(),
        }
    }
}

impl PacketDirection {
    /// The name of the direction.
    pub open spec fn name(self) -> Seq<char> {
        match self {
            PacketDirection::Clientbound => "Clientbound"@,
            PacketDirection::Serverbound => "Serverbound"@,
        }
    }

    /// The direction with the given name, where there is one.
    pub open spec fn named(name: Seq<char>) -> Option<PacketDirection> {
        if name == "Clientbound"@ {
            Some(PacketDirection::Clientbound)
        } else if name == "Serverbound"@ {
            Some(PacketDirection::Serverbound)
        } else {
            None
        }
    }

    /// The direction with the name `s`, written exactly as the direction is.
    /// A text that names no direction is refused.
    pub fn from_str(s: &str) -> (r: Result<PacketDirection, DecodingError>)
        ensures
            r == match PacketDirection::named(s@) {
                Some(direction) => Ok::<PacketDirection, DecodingError>(direction),
                None => Err(DecodingError::UnsupportedDiscriminant),
            },
    {
        if same_text(s, "Clientbound") {
            Ok(PacketDirection::Clientbound)
        } else if same_text(s, "Serverbound") {
            Ok(PacketDirection::Serverbound)
        } else {
            Err(DecodingError::UnsupportedDiscriminant)
        }
    }

    /// The name of the direction.
    pub fn to_string(&self) -> (s: String)
        ensures
            s@ == self.name(),
    {
        match self {
            PacketDirection::Clientbound => "Clientbound".to_owned(),
            PacketDirection::Serverbound => "Serverbound".to_owned(),
        }
    }
}

/// A connection never comes back to a state that it has left: no state leads
/// to itself or to `Handshake`, `Status` and `Play` lead nowhere, and what a
/// state leads to leads back to neither of the two.
pub proof fn lemma_states_move_forward(a: ClientState, b: ClientState, c: ClientState)
    ensures
        !a.leads_to(a),
        !a.leads_to(ClientState::Handshake),
        !ClientState::Status.leads_to(a),
        !ClientState::Play.leads_to(a),
        a.leads_to(b) ==> !b.leads_to(a),
        a.leads_to(b) && b.leads_to(c) ==> !c.leads_to(a) && !c.leads_to(b),
{
}

/// The name of a state names that state and no other, and so does the name of
/// a direction.
pub proof fn lemma_names_tell_apart(state: ClientState, direction: PacketDirection)
    ensures
        ClientState::named(state.name()) == Some(state),
        PacketDirection::named(direction.name()) == Some(direction),
{
    reveal_strlit("Status");
    reveal_strlit("Handshake");
    reveal_strlit("Login");
    reveal_strlit("Play");
    reveal_strlit("Clientbound");
    reveal_strlit("Serverbound");
    assert("Status"@[0] != "Handshake"@[0]);
    assert("Status"@[0] != "Login"@[0]);
    assert("Status"@[0] != "Play"@[0]);
    assert("Handshake"@[0] != "Login"@[0]);
    assert("Handshake"@[0] != "Play"@[0]);
    assert("Login"@[0] != "Play"@[0]);
    assert("Clientbound"@[0] != "Serverbound"@[0]);
}

} // verus!
