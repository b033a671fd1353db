//! The booking service: what to ask it, and what its answer says of a room.

use crate::slots::{with_slot, Slot, SlotMap};
use url::Url;
use vstd::prelude::*;
use vstd::string::*;

verus! {

/// `Url` of the url crate: a URL that was read and found well formed.
#[verifier::external_type_specification]
#[verifier::external_body]
pub struct ExUrl(Url);

/// `ParseError` of the url crate: why a text was not read as a URL.
#[verifier::external_type_specification]
#[verifier::external_body]
pub struct ExUrlParseError(url::ParseError);

/// The text of a URL: its serialization, what `Url::as_str` gives.
pub uninterp spec fn url_text(url: Url) -> Seq<char>;

/// The text of the URL that `Url::parse` reads from `input`, or `None` where
/// it rejects `input`.
pub uninterp spec fn url_parsed(input: Seq<char>) -> Option<Seq<char>>;

/// The text of the URL that `Url::join` makes of `input` against the URL with
/// the text `base`, or `None` where it rejects `input`.
pub uninterp spec fn url_joined(base: Seq<char>, input: Seq<char>) -> Option<Seq<char>>;

/// The text of the URL with the text `url` after the pair of `name` and
/// `value` was appended to its query.
pub uninterp spec fn url_with_pair(url: Seq<char>, name: Seq<char>, value: Seq<char>) -> Seq<char>;

/// `Url::parse` of the url crate: reads an absolute URL.
#[verifier::external_body]
fn parse_url(input: &str) -> (r: Result<Url, url::ParseError>)
    ensures
        match r {
            Ok(url) => url_parsed(input@) == Some(url_text(url)),
            Err(_) => url_parsed(input@) is None,
        },
{
    Url::parse(input)
}

/// `Url::join` of the url crate: reads `input` as a URL relative to `base`.
#[verifier::external_body]
fn join_url(base: &Url, input: &str) -> (r: Result<Url, url::ParseError>)
    ensures
        match r {
            Ok(url) => url_joined(url_text(*base), input@) == Some(url_text(url)),
            Err(_) => url_joined(url_text(*base), input@) is None,
        },
{
    base.join(input)
}

/// `Url::query_pairs_mut` of the url crate with one `append_pair` on what it
/// returns: appends a name and a value to the query of the URL.
///
/// The crate keeps places in a URL as 32-bit numbers and stops the program
/// where one does not fit; the bound keeps the text short enough, at four
/// bytes for a character of the URL and three escaped bytes for each byte of
/// the pair. The appended text is at most a question mark, an ampersand, an
/// equals sign and twelve characters for each character of the pair.
#[verifier::external_body]
fn append_pair(url: &mut Url, name: &str, value: &str)
    requires
        4 * url_text(*old(url)).len() + 12 * (name@.len() + value@.len()) + 3 <= u32::MAX,
    ensures
        url_text(*final(url)) == url_with_pair(url_text(*old(url)), name@, value@),
        url_text(*final(url)).len() <= url_text(*old(url)).len() + 12 * (name@.len()
            + value@.len()) + 3,
{
    url.query_pairs_mut().append_pair(name, value);
}

/// `Url::as_str` of the url crate: the text of the URL.
#[verifier::external_body]
fn url_str(url: &Url) -> (text: &str)
    ensures
        text@ == url_text(*url),
{
    url.as_str()
}

/// The room that an answer of the service is about.
#[derive(Default, Debug, Clone, PartialEq)]
pub struct Resource {
    pub name: String,
    pub id: i64,
}

/// One slot of an answer of the service.
#[derive(Default, Debug, Clone, PartialEq)]
pub struct AvailableSlot {
    pub date: String,
    pub time: String,
    pub available: bool,
    pub allow_multiple_bookings: bool,
    pub capacity: i64,
    pub booked_count: i64,
    pub booked: bool,
}

/// An answer of the service: a room and its slots for one day.
#[derive(Debug, Clone, PartialEq)]
pub struct GetAvailabilityResponse {
    pub resource: Resource,
    pub available_slots: Vec<AvailableSlot>,
}

/// A room and when it is free.
#[derive(Debug)]
pub struct Availability {
    pub room: String,
    pub time_available: SlotMap,
}

/// Why no URL could be made for a request.
#[derive(Debug)]
pub enum UrlError {
    /// The address of the service is not an absolute URL.
    Base(url::ParseError),
    /// The path of the request could not be joined to the address.
    Path(url::ParseError),
    /// The address, the room or the date has more than `MAX_TEXT` characters.
    TooLong,
}

/// The most characters that the address of the service with the path of the
/// request, the identifier of a room or a date may have.
pub const MAX_TEXT: usize = 0x100_0000;

/// The path of the request for the slots of a room.
pub open spec fn availability_path() -> Seq<char> {
    "/en/bookings/GetAvailabilityAtWithUser"@
}

/// The text of the URL that asks for the slots of the room `guid` on the day
/// `start_time`, given the text `joined` of the service's address with the
/// path of the request: the pairs `guid`, `startTime` and `interval`, the last
/// always 30 minutes, are appended to the query in this order.
pub open spec fn request_text(joined: Seq<char>, guid: Seq<char>, start_time: Seq<char>) -> Seq<
    char,
> {
    url_with_pair(
        url_with_pair(url_with_pair(joined, "guid"@, guid), "startTime"@, start_time),
        "interval"@,
        "30"@,
    )
}

/// The slots that a list of answers' slots gives, the first `n` of them taken
/// in order: each sets its time to free where it is not booked. A time that
/// comes twice keeps its first place and its last value.
pub open spec fn slots_from(slots: Seq<AvailableSlot>, n: int) -> Seq<Slot>
    decreases n,
{
    if n <= 0 {
        Seq::<Slot>::empty()
    } else {
        with_slot(slots_from(slots, n - 1), slots[n - 1].time@, !slots[n - 1].booked)
    }
}

/// What is needed to ask the booking service: its address and who asks.
pub struct Client {
    url: String,
    user: String,
    password: String,
}

impl Client {
    /// The address of the service.
    pub closed spec fn url(&self) -> Seq<char> {
        self.url@
    }

    /// The name that the client logs in with.
    pub closed spec fn user(&self) -> Seq<char> {
        self.user@
    }

    /// The password that the client logs in with.
    pub closed spec fn password(&self) -> Seq<char> {
        self.password@
    }

    /// A client for the service at `url`, for the user `user`.
    pub fn new(url: String, user: String, password: String) -> (client: Client)
        ensures
            client.url() == url@,
            client.user() == user@,
            client.password() == password@,
    {
        Client { url, user, password }
    }

    /// The name to log in with.
    pub fn user_name(&self) -> (user: &str)
        ensures
            user@ == self.user(),
    {
        self.user.as_str()
    }

    /// The password to log in with.
    pub fn user_password(&self) -> (password: &str)
        ensures
            password@ == self.password(),
    {
        self.password.as_str()
    }

    /// The URL of `path` at the service.
    fn build_client_url(&self, path: &str) -> (r: Result<Url, UrlError>)
        ensures
            match r {
                Ok(joined) => {
                    &&& url_parsed(self.url()) matches Some(base)
                    &&& url_joined(base, path@) == Some(url_text(joined))
                },
                Err(UrlError::Base(_)) => url_parsed(self.url()) is None,
                Err(UrlError::Path(_)) => {
                    &&& url_parsed(self.url()) matches Some(base)
                    &&& url_joined(base, path@) is None
                },
                Err(UrlError::TooLong) => false,
            },
    {
        let base = match parse_url(self.url.as_str()) {
            Ok(base) => base,
            Err(e) => {
                return Err(UrlError::Base(e));
            },
        };
        match join_url(&base, path) {
            Ok(joined) => Ok(joined),
            Err(e) => Err(UrlError::Path(e)),
        }
    }

    /// The URL of the request for the slots of the room `guid` on the day
    /// `start_time`, a date written as `YYYY-MM-DD`.
    pub fn availability_url(&self, guid: &str, start_time: &str) -> (r: Result<String, UrlError>)
        ensures
            match r {
                Ok(text) => {
                    let base = url_parsed(self.url());
                    &&& base is Some
                    &&& url_joined(base->0, availability_path()) matches Some(joined)
                    &&& joined.len() <= MAX_TEXT
                    &&& guid@.len() <= MAX_TEXT
                    &&& start_time@.len() <= MAX_TEXT
                    &&& text@ == request_text(joined, guid@, start_time@)
                },
                Err(UrlError::Base(_)) => url_parsed(self.url()) is None,
                Err(UrlError::Path(_)) => {
                    &&& url_parsed(self.url()) matches Some(base)
                    &&& url_joined(base, availability_path()) is None
                },
                Err(UrlError::TooLong) => {
                    &&& url_parsed(self.url()) matches Some(base)
                    &&& url_joined(base, availability_path()) matches Some(joined)
                    &&& (joined.len() > MAX_TEXT || guid@.len() > MAX_TEXT || start_time@.len()
                        > MAX_TEXT)
                },
            },
    {
        let mut query_url = match self.build_client_url("/en/bookings/GetAvailabilityAtWithUser") {
            Ok(joined) => joined,
            Err(e) => {
                return Err(e);
            },
        };
        if url_str(&query_url).unicode_len() > MAX_TEXT || guid.unicode_len() > MAX_TEXT
            || start_time.unicode_len() > MAX_TEXT {
            return Err(UrlError::TooLong);
        }
        proof {
            reveal_strlit("guid");
            reveal_strlit("startTime");
            reveal_strlit("interval");
            reveal_strlit("30");
        }
        append_pair(&mut query_url, "guid", guid);
        append_pair(&mut query_url, "startTime", start_time);
        append_pair(&mut query_url, "interval", "30");
        Ok(url_str(&query_url).to_owned())
    }

    /// What an answer of the service says of its room: the name of the room,
    /// and for each slot of the answer whether the room is free then, which it
    /// is where the slot is not booked.
    pub fn rooms_availability(&self, response: GetAvailabilityResponse) -> (room: Availability)
        ensures
            room.room@ == response.resource.name@,
            room.time_available.entries() == slots_from(
                response.available_slots@,
                response.available_slots.len() as int,
            ),
    {
        let mut time_available = SlotMap::new();
        let mut i: usize = 0;
        while i < response.available_slots.len()
            invariant
                i <= response.available_slots.len(),
                time_available.entries() == slots_from(response.available_slots@, i as int),
            decreases response.available_slots.len() - i,
        {
            let slot = &response.available_slots[i];
            time_available.insert(slot.time.clone(), !slot.booked);
            i = i + 1;
        }
        Availability { room: response.resource.name, time_available }
    }
}

} // verus!
