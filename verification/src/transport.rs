//! What the library hands to the transport: the addresses of its calls and
//! the records it answers with. Sending is left to the caller.

use vstd::prelude::*;
use vstd::string::StringExecFns;
use vstd::utf8::encode_utf8;

verus! {

/// A message as the transport reports it; its `id` is the locator of what was
/// published.
#[derive(Debug, Clone)]
pub struct Msg {
    pub id: String,
    pub channel_id: String,
    pub content: String,
}

pub struct MsgView {
    pub id: Seq<char>,
    pub channel_id: Seq<char>,
    pub content: Seq<char>,
}

impl View for Msg {
    type V = MsgView;

    open spec fn view(&self) -> MsgView {
        MsgView { id: self.id@, channel_id: self.channel_id@, content: self.content@ }
    }
}

/// A container as the transport reports it.
#[derive(Debug, Clone)]
pub struct Thread {
    pub id: String,
    pub parent_id: String,
    pub archived: bool,
}

pub struct ThreadView {
    pub id: Seq<char>,
    pub parent_id: Seq<char>,
    pub archived: bool,
}

impl View for Thread {
    type V = ThreadView;

    open spec fn view(&self) -> ThreadView {
        ThreadView { id: self.id@, parent_id: self.parent_id@, archived: self.archived }
    }
}

/// A byte that a URL carries as it is: a letter, a digit, or one of `-._~`.
pub open spec fn is_unreserved(b: u8) -> bool {
    ||| 0x30 <= b <= 0x39
    ||| 0x41 <= b <= 0x5a
    ||| 0x61 <= b <= 0x7a
    ||| b == 0x2d
    ||| b == 0x2e
    ||| b == 0x5f
    ||| b == 0x7e
}

/// The sixteen uppercase hexadecimal digits, by value.
pub open spec fn upper_hex_digits() -> Seq<char> {
    seq!['0', '1', '2', '3', '4', '5', '6', '7', '8', '9', 'A', 'B', 'C', 'D', 'E', 'F']
}

/// One byte as a URL carries it: itself, or a percent sign and two uppercase
/// hexadecimal digits.
pub open spec fn percent_byte(b: u8) -> Seq<char> {
    if is_unreserved(b) {
        seq![b as char]
    } else {
        seq!['%', upper_hex_digits()[b as int / 16], upper_hex_digits()[b as int % 16]]
    }
}

/// Bytes as a URL carries them.
pub open spec fn percent_encoded(bytes: Seq<u8>) -> Seq<char>
    decreases bytes.len(),
{
    if bytes.len() == 0 {
        Seq::empty()
    } else {
        percent_encoded(bytes.drop_last()) + percent_byte(bytes.last())
    }
}

/// Calls `urlencoding::encode`, which percent-encodes every byte of the
/// text's UTF-8 form except letters, digits and `-`, `.`, `_`, `~`, with
/// uppercase hexadecimal digits.
#[verifier::external_body]
fn percent_encode(text: &str) -> (out: String)
    ensures
        out@ == percent_encoded(encode_utf8(text@)),
{
    urlencoding::encode(text).into_owned()
}

/// The root of the transport's addresses.
pub open spec fn api_base() -> Seq<char> {
    seq![
        'h',
        't',
        't',
        'p',
        's',
        ':',
        '/',
        '/',
        'd',
        'i',
        's',
        'c',
        'o',
        'r',
        'd',
        '.',
        'c',
        'o',
        'm',
        '/',
        'a',
        'p',
        'i',
        '/',
        'v',
        '1',
        '0',
    ]
}

pub open spec fn channels_part() -> Seq<char> {
    seq!['/', 'c', 'h', 'a', 'n', 'n', 'e', 'l', 's', '/']
}

pub open spec fn messages_part() -> Seq<char> {
    seq!['/', 'm', 'e', 's', 's', 'a', 'g', 'e', 's']
}

pub open spec fn pins_part() -> Seq<char> {
    seq!['/', 'p', 'i', 'n', 's', '/']
}

pub open spec fn threads_part() -> Seq<char> {
    seq!['/', 't', 'h', 'r', 'e', 'a', 'd', 's']
}

pub open spec fn reactions_part() -> Seq<char> {
    seq!['/', 'r', 'e', 'a', 'c', 't', 'i', 'o', 'n', 's', '/']
}

pub open spec fn own_part() -> Seq<char> {
    seq!['/', '@', 'm', 'e']
}

/// The address messages of a container are published to.
pub open spec fn messages_address(base: Seq<char>, channel_id: Seq<char>) -> Seq<char> {
    base + channels_part() + channel_id + messages_part()
}

/// The address of one message.
pub open spec fn message_address(base: Seq<char>, channel_id: Seq<char>, message_id: Seq<char>) -> Seq<
    char,
> {
    messages_address(base, channel_id) + seq!['/'] + message_id
}

/// The root of the transport's addresses.
pub fn default_base() -> (base: String)
    ensures
        base@ == api_base(),
{
    proof {
        reveal_strlit("https://discord.com/api/v10");
    }
    let base = String::from_str("https://discord.com/api/v10");
    assert(base@ =~= api_base());
    base
}

/// The address a chunk is published to.
pub fn post_message_url(base: &str, channel_id: &str) -> (url: String)
    ensures
        url@ == messages_address(base@, channel_id@),
{
    proof {
        reveal_strlit("/channels/");
        reveal_strlit("/messages");
    }
    let mut url = String::from_str(base);
    url.append("/channels/");
    url.append(channel_id);
    url.append("/messages");
    assert(url@ =~= messages_address(base@, channel_id@));
    url
}

/// The address a published message is amended at.
pub fn edit_message_url(base: &str, channel_id: &str, message_id: &str) -> (url: String)
    ensures
        url@ == message_address(base@, channel_id@, message_id@),
{
    proof {
        reveal_strlit("/");
    }
    let mut url = post_message_url(base, channel_id);
    url.append("/");
    url.append(message_id);
    assert(url@ =~= message_address(base@, channel_id@, message_id@));
    url
}

/// The address a message is pinned at.
pub fn pin_message_url(base: &str, channel_id: &str, message_id: &str) -> (url: String)
    ensures
        url@ == base@ + channels_part() + channel_id@ + pins_part() + message_id@,
{
    proof {
        reveal_strlit("/channels/");
        reveal_strlit("/pins/");
    }
    let mut url = String::from_str(base);
    url.append("/channels/");
    url.append(channel_id);
    url.append("/pins/");
    url.append(message_id);
    assert(url@ =~= base@ + channels_part() + channel_id@ + pins_part() + message_id@);
    url
}

/// The address a marker is put on a message at; the marker is
/// percent-encoded.
pub fn add_reaction_url(base: &str, channel_id: &str, message_id: &str, emoji: &str) -> (url: String)
    ensures
        url@ == message_address(base@, channel_id@, message_id@) + reactions_part()
            + percent_encoded(encode_utf8(emoji@)) + own_part(),
{
    proof {
        reveal_strlit("/reactions/");
        reveal_strlit("/@me");
    }
    let encoded = percent_encode(emoji);
    let mut url = edit_message_url(base, channel_id, message_id);
    url.append("/reactions/");
    url.append(encoded.as_str());
    url.append("/@me");
    assert(url@ =~= message_address(base@, channel_id@, message_id@) + reactions_part()
        + percent_encoded(encode_utf8(emoji@)) + own_part());
    url
}

/// The address a container is created at, below its parent.
pub fn create_thread_url(base: &str, parent_channel_id: &str) -> (url: String)
    ensures
        url@ == base@ + channels_part() + parent_channel_id@ + threads_part(),
{
    proof {
        reveal_strlit("/channels/");
        reveal_strlit("/threads");
    }
    let mut url = String::from_str(base);
    url.append("/channels/");
    url.append(parent_channel_id);
    url.append("/threads");
    assert(url@ =~= base@ + channels_part() + parent_channel_id@ + threads_part());
    url
}

/// The kind of container the transport is asked to create: a public thread.
pub const PUBLIC_THREAD: u8 = 11;

} // verus!
