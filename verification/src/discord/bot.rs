use crate::entities::entity::{CustomHashMap, RiftRumbleEntityCollection, RiftRumbleEntitySet};
use vstd::prelude::*;

verus! {

pub const OPEN_COMMAND: &'static str = "!open";

pub const PARTICIPATE_COMMAND: &'static str = "!participate";

pub const LEAVE_COMMAND: &'static str = "!leave";

pub const START_COMMAND: &'static str = "!start";

pub const INITIALIZED_MESSAGE: &'static str = "Rift Rumble initialized!";

pub const ADDED_MESSAGE: &'static str = "You have been added to the Rift Rumble!";

pub const REMOVED_MESSAGE: &'static str = "You have been removed from the Rift Rumble!";

/// The chat commands the bot answers; any other message is `Other`.
#[derive(Debug, Clone, Copy, PartialEq, Eq, Structural)]
pub enum Command {
    Open,
    Participate,
    Leave,
    Start,
    Other,
}

/// The command a message's text names: the text must be exactly the command.
pub open spec fn command_of(content: Seq<char>) -> Command {
    if content == OPEN_COMMAND@ {
        Command::Open
    } else if content == PARTICIPATE_COMMAND@ {
        Command::Participate
    } else if content == LEAVE_COMMAND@ {
        Command::Leave
    } else if content == START_COMMAND@ {
        Command::Start
    } else {
        Command::Other
    }
}

/// Reads the command out of a message's text.
pub fn parse_command(content: &str) -> (r: Command)
    ensures
        r == command_of(content@),
{
    let text = content.to_owned();
    if text == OPEN_COMMAND.to_owned() {
        Command::Open
    } else if text == PARTICIPATE_COMMAND.to_owned() {
        Command::Participate
    } else if text == LEAVE_COMMAND.to_owned() {
        Command::Leave
    } else if text == START_COMMAND.to_owned() {
        Command::Start
    } else {
        Command::Other
    }
}

/// Something the bot sends in answer to a message, in order.
///
/// `Public` goes to the channel of the message; `Private` goes to its author
/// in a direct message; `Roster` prints the participants and their loadouts
/// and sends that listing to the author in a direct message.
#[derive(Debug, PartialEq, Eq)]
pub enum Reply {
    Public(String),
    Private(String),
    Roster,
}

/// What a `Reply` holds.
pub enum ReplyView {
    Public(Seq<char>),
    Private(Seq<char>),
    Roster,
}

impl View for Reply {
    type V = ReplyView;

    open spec fn view(&self) -> ReplyView {
        match self {
            Reply::Public(text) => ReplyView::Public(text@),
            Reply::Private(text) => ReplyView::Private(text@),
            Reply::Roster => ReplyView::Roster,
        }
    }
}

/// The replies the bot sends for each command.
pub open spec fn replies_for(command: Command) -> Seq<ReplyView> {
    match command {
        Command::Open => seq![ReplyView::Public(INITIALIZED_MESSAGE@)],
        Command::Participate => seq![ReplyView::Roster, ReplyView::Private(ADDED_MESSAGE@)],
        Command::Leave => seq![ReplyView::Private(REMOVED_MESSAGE@)],
        Command::Start => Seq::empty(),
        Command::Other => Seq::empty(),
    }
}

/// The decisions the bot takes on the messages of the chat.
pub struct Handler;

impl Handler {
    /// Answers the message `content` from user `author`: `!open` empties the
    /// roster and announces it in the channel; `!participate` draws a loadout
    /// from `collection` (which only this command reads) for the author, records it in the roster (replacing
    /// the author's earlier one) and sends the roster and a confirmation to
    /// the author; `!leave` sends the author a farewell and leaves the roster
    /// as it is; `!start` and any other text do nothing.
    pub fn message(
        roster: &mut CustomHashMap,
        collection: Option<&RiftRumbleEntityCollection>,
        author: u64,
        content: &str,
    ) -> (r: Vec<Reply>)
        requires
            command_of(content@) == Command::Participate ==> (collection matches Some(c)
                && c.randomizable()),
        ensures
            r@.map_values(|reply: Reply| reply@) == replies_for(command_of(content@)),
            command_of(content@) == Command::Open ==> final(roster).0@ == Map::<
                u64,
                RiftRumbleEntitySet,
            >::empty(),
            command_of(content@) == Command::Participate ==> {
                &&& final(roster).0@ == old(roster).0@.insert(author, final(roster).0@[author])
                &&& collection.unwrap().is_loadout(final(roster).0@[author])
            },
            command_of(content@) != Command::Open && command_of(content@) != Command::Participate
                ==> final(roster).0@ == old(roster).0@,
    {
        broadcast use vstd::std_specs::hash::group_hash_axioms;

        let mut replies: Vec<Reply> = Vec::new();
        match parse_command(content) {
            Command::Open => {
                roster.0.clear();
                replies.push(Reply::Public(INITIALIZED_MESSAGE.to_owned()));
            },
            Command::Participate => {
                let set = collection.unwrap().randomize_set();
                let ghost drawn = set;
                roster.0.insert(author, set);
                assert(roster.0@[author] == drawn);
                replies.push(Reply::Roster);
                replies.push(Reply::Private(ADDED_MESSAGE.to_owned()));
            },
            Command::Leave => {
                replies.push(Reply::Private(REMOVED_MESSAGE.to_owned()));
            },
            Command::Start => {},
            Command::Other => {},
        }
        assert(replies@.map_values(|reply: Reply| reply@) =~= replies_for(command_of(content@)));
        replies
    }
}

} // verus!
