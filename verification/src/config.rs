//! The settings that the program is started with.

use crate::text::{fields, owned_texts, split, texts};
use vstd::prelude::*;

verus! {

/// The settings: where the booking service is, who asks, and which rooms to
/// ask about.
#[derive(Debug, Clone, PartialEq, Eq)]
pub struct Config {
    pub url: String,
    pub user: String,
    pub password: String,
    pub rooms: Vec<String>,
}

/// A setting that is missing.
#[derive(Debug, Clone, Copy, PartialEq, Eq, Structural)]
pub enum ConfigError {
    MissingUrl,
    MissingUser,
    MissingPassword,
    MissingRooms,
}

/// The text that tells the user which setting is missing.
pub open spec fn message_of(e: ConfigError) -> Seq<char> {
    match e {
        ConfigError::MissingUrl => "BOOKING_URL environment variable not set"@,
        ConfigError::MissingUser => "BOOKING_USER environment variable not set"@,
        ConfigError::MissingPassword => "BOOKING_PASSWORD environment variable not set"@,
        ConfigError::MissingRooms => "BOOKING_ROOMS environment variable not set"@,
    }
}

impl ConfigError {
    /// The text that tells the user which setting is missing.
    pub fn message(&self) -> (text: &'static str)
        ensures
            text@ == message_of(*self),
    {
        match self {
            ConfigError::MissingUrl => "BOOKING_URL environment variable not set",
            ConfigError::MissingUser => "BOOKING_USER environment variable not set",
            ConfigError::MissingPassword => "BOOKING_PASSWORD environment variable not set",
            ConfigError::MissingRooms => "BOOKING_ROOMS environment variable not set",
        }
    }
}

/// The identifiers of a list of rooms written with commas between them.
pub fn room_list(list: &str) -> (rooms: Vec<String>)
    ensures
        owned_texts(rooms@) == fields(list@, ','),
{
    let parts = split(list, ',');
    let mut rooms: Vec<String> = Vec::new();
    let mut i: usize = 0;
    while i < parts.len()
        invariant
            i <= parts.len(),
            rooms.len() == i,
            forall|j: int| 0 <= j < i ==> (#[trigger] rooms[j])@ == parts[j]@,
        decreases parts.len() - i,
    {
        rooms.push(parts[i].to_owned());
        i = i + 1;
    }
    assert(owned_texts(rooms@) =~= texts(parts@));
    rooms
}

impl Config {
    /// The settings made of the four values, each `None` where it was not
    /// given. The first value that is missing, in the order of the
    /// parameters, is the error. Without the list of rooms there are no
    /// settings, so nothing can be asked of the service.
    pub fn load(
        url: Option<String>,
        user: Option<String>,
        password: Option<String>,
        rooms: Option<String>,
    ) -> (r: Result<Config, ConfigError>)
        ensures
            match r {
                Ok(config) => {
                    &&& url == Some(config.url)
                    &&& user == Some(config.user)
                    &&& password == Some(config.password)
                    &&& rooms is Some
                    &&& owned_texts(config.rooms@) == fields(rooms->0@, ',')
                },
                Err(ConfigError::MissingUrl) => url is None,
                Err(ConfigError::MissingUser) => url is Some && user is None,
                Err(ConfigError::MissingPassword) => url is Some && user is Some && password
                    is None,
                Err(ConfigError::MissingRooms) => url is Some && user is Some && password is Some
                    && rooms is None,
            },
            rooms is None ==> r is Err,
    {
        let url = match url {
            Some(value) => value,
            None => {
                return Err(ConfigError::MissingUrl);
            },
        };
        let user = match user {
            Some(value) => value,
            None => {
                return Err(ConfigError::MissingUser);
            },
        };
        let password = match password {
            Some(value) => value,
            None => {
                return Err(ConfigError::MissingPassword);
            },
        };
        let list = match rooms {
            Some(value) => value,
            None => {
                return Err(ConfigError::MissingRooms);
            },
        };
        let rooms = room_list(list.as_str());
        Ok(Config { url, user, password, rooms })
    }
}

} // verus!
