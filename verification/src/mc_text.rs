//! The status document that a server describes itself with.
//!
//! The JSON text of a response is turned into these types by a JSON
//! deserializer outside this crate.  Nothing here reads what is inside a JSON
//! value: it is carried as it came.

use vstd::prelude::*;

verus! {

/// A JSON value of `serde_json`, carried and never looked into.
#[verifier::external_type_specification]
#[verifier::external_body]
pub struct ExJsonValue(serde_json::Value);

/// What a server says of itself in answer to a status request.
#[derive(Debug)]
pub struct ServerStatus {
    /// The version of the server.
    pub version: Version,
    /// The description, most often the message of the day.
    pub description: Description,
    /// How many players there are and may be.
    pub players: Players,
    /// The mods of the server; none where the document names none.
    pub mods: Vec<Mod>,
    /// The icon of the server, where the document holds one.
    pub favicon: Option<String>,
    /// The fields of the document that none of the others holds.
    pub extra: serde_json::Value,
}

/// The version of a server.
#[derive(Debug)]
pub struct Version {
    /// The name of the version, such as "Purpur 1.21".
    pub name: String,
    /// The number of the protocol, such as 767.
    pub protocol: i32,
}

/// The description of a server: plain text, or a structure of text
/// components with colours and formatting.
#[derive(Debug)]
pub enum Description {
    /// Plain text.
    Text(String),
    /// Anything else, as it came.
    Complex(serde_json::Value),
}

/// The players of a server.
#[derive(Debug)]
pub struct Players {
    /// How many players the server admits.
    pub max: i32,
    /// How many players are online.
    pub online: i32,
    /// Some of the players that are online; none where the document names
    /// none.
    pub sample: Vec<Player>,
}

/// One player of the sample.
#[derive(Debug)]
pub struct Player {
    /// The name of the player.
    pub name: String,
    /// The UUID of the player.
    pub id: String,
}

/// One mod of a server.
#[derive(Debug)]
pub struct Mod {
    /// The identifier of the mod.
    pub id: String,
    /// The name of the mod.
    pub name: String,
}

} // verus!
