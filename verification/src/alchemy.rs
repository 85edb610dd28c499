//! The push feed of new blocks: where it is reached, what to do with each
//! message that it hands over, and how long to wait before it is opened
//! again.

use vstd::prelude::*;
use vstd::string::StringExecFns;

verus! {

/// The push feed of new blocks.
pub struct AlchemyWebSocket {
    url: String,
}

/// What the feed hands over.
#[derive(Debug)]
pub enum Incoming {
    /// Reading from the feed failed.
    Failed,
    /// A text message, with the number of the block that it announces, still
    /// in hexadecimal, if it announces one.
    Text(Option<String>),
    /// A ping, with its payload.
    Ping(Vec<u8>),
    /// The other side closes the feed.
    Close,
    /// Any other message.
    Other,
}

/// What to do about a message of the feed.
#[derive(Debug)]
pub enum Reply {
    /// Nothing: read on.
    Skip,
    /// Tell the listener of the block with this number, still in hexadecimal.
    Announce(String),
    /// Send a pong with this payload back.
    Pong(Vec<u8>),
    /// Stop reading.
    Stop,
}

/// The reply that a message calls for.
pub open spec fn reply_for(incoming: Incoming) -> Reply {
    match incoming {
        Incoming::Failed => Reply::Skip,
        Incoming::Text(Some(number)) => Reply::Announce(number),
        Incoming::Text(None) => Reply::Skip,
        Incoming::Ping(payload) => Reply::Pong(payload),
        Incoming::Close => Reply::Stop,
        Incoming::Other => Reply::Skip,
    }
}

/// The reply that a message calls for: a failed read and a message of no
/// interest are passed over, a text message is passed on where it announces
/// a block, a ping is answered with its own payload, and a close ends the
/// reading.
pub fn reply_to(incoming: Incoming) -> (reply: Reply)
    ensures
        reply == reply_for(incoming),
{
    match incoming {
        Incoming::Failed => Reply::Skip,
        Incoming::Text(Some(number)) => Reply::Announce(number),
        Incoming::Text(None) => Reply::Skip,
        Incoming::Ping(payload) => Reply::Pong(payload),
        Incoming::Close => Reply::Stop,
        Incoming::Other => Reply::Skip,
    }
}

impl AlchemyWebSocket {
    /// The address of the feed.
    pub closed spec fn address(self) -> Seq<char> {
        self.url@
    }

    /// The feed that `api_key` opens.
    pub fn new(api_key: String) -> (socket: Self)
        ensures
            socket.address() == "wss://eth-sepolia.g.alchemy.com/v2/"@ + api_key@,
    {
        let mut url = String::from_str("wss://eth-sepolia.g.alchemy.com/v2/");
        url.append(api_key.as_str());
        AlchemyWebSocket { url }
    }

    /// The address to connect to.
    pub fn url(&self) -> (url: &str)
        ensures
            url@ == self.address(),
    {
        self.url.as_str()
    }
}

/// The seconds to wait before the feed is opened again: none after it was
/// closed in good order, five after it failed.
pub fn reconnect_delay_secs(failed: bool) -> (seconds: u64)
    ensures
        seconds == if failed {
            5u64
        } else {
            0u64
        },
{
    if failed {
        5
    } else {
        0
    }
}

} // verus!
