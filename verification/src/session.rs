//! An interactive conversation.
use vstd::prelude::*;

use crate::chat::ChatMessage;
use crate::reply::{closed_off, Reply};
use crate::text::same_text;
use crate::tokenizer::Tokenizer;
use crate::worker::{encodable, encodes, laid_out, Marks};
use crate::TokenId;

verus! {

/// A text in lower case, as `str::to_lowercase` gives it.
pub uninterp spec fn lower_case(text: Seq<char>) -> Seq<char>;

/// `str::to_lowercase`: the text in lower case. What the lower case of a text is, is
/// only named.
#[verifier::external_body]
fn to_lowercase(text: &str) -> (r: String)
    ensures
        r@ == lower_case(text@),
{
    text.to_lowercase()
}

/// What a line of input asks for.
#[derive(Clone, Copy, Debug, PartialEq, Eq, Structural)]
pub enum Command {
    /// To end the conversation.
    Quit,
    /// To begin a new one.
    Clear,
    /// Nothing.
    Nothing,
    /// A reply.
    Say,
}

/// What a line of input asks for, given the same in lower case.
pub open spec fn command_of(input: Seq<char>, lowered: Seq<char>) -> Command {
    if lowered == "quit"@ || lowered == "exit"@ {
        Command::Quit
    } else if lowered == "clear"@ {
        Command::Clear
    } else if input.len() == 0 {
        Command::Nothing
    } else {
        Command::Say
    }
}

/// What a line of input asks for, given the same in lower case.
pub fn classify(input: &str, lowered: &str) -> (r: Command)
    ensures
        r == command_of(input@, lowered@),
{
    if same_text(lowered, "quit") || same_text(lowered, "exit") {
        Command::Quit
    } else if same_text(lowered, "clear") {
        Command::Clear
    } else if input.is_empty() {
        Command::Nothing
    } else {
        Command::Say
    }
}

/// What a line of input asks for.
pub fn command(input: &str) -> (r: Command)
    ensures
        r == command_of(input@, lower_case(input@)),
{
    let lowered = to_lowercase(input);
    classify(input, lowered.as_str())
}

/// Whether there is no further input after a command.
pub open spec fn ends_input(command: Command, single_turn: bool) -> bool {
    command == Command::Quit || single_turn
}

/// Of a single turn every command is the last, and of a conversation only the one that ends
/// it.
pub proof fn law_last_commands(command: Command)
    ensures
        ends_input(command, true),
        ends_input(Command::Quit, false),
        !ends_input(Command::Clear, false),
        !ends_input(Command::Nothing, false),
        !ends_input(Command::Say, false),
{
}

impl Command {
    /// Whether there is no further input after this one: always after one that ends the
    /// conversation, and after any where there is only the one.
    pub fn is_last(self, single_turn: bool) -> (r: bool)
        ensures
            r == (self == Command::Quit || single_turn),
            r == ends_input(self, single_turn),
    {
        match self {
            Command::Quit => true,
            _ => single_turn,
        }
    }
}

/// A conversation, as the model sees it.
pub struct Session {
    marks: Marks,
    conversation: Vec<TokenId>,
}

/// What a message of the user adds to a conversation that the assistant is to continue.
pub open spec fn user_turn(marks: Marks, body: Seq<TokenId>) -> Seq<TokenId> {
    seq![marks.user_start] + body + seq![marks.user_end, marks.assistant_start]
}

impl Session {
    /// The tokens that delimit messages.
    pub closed spec fn marks(&self) -> Marks {
        self.marks
    }

    /// The tokens of the conversation.
    pub closed spec fn tokens(&self) -> Seq<TokenId> {
        self.conversation@
    }

    /// A conversation always begins with the token for its beginning.
    pub open spec fn wf(&self) -> bool {
        self.tokens().len() > 0 && self.tokens()[0] == self.marks().bos
    }

    /// This is the conversation `old` with tokens added to it.
    pub open spec fn continues(&self, old: &Self, added: Seq<TokenId>) -> bool {
        self.marks() == old.marks() && self.tokens() == old.tokens() + added
    }

    /// A conversation in which nothing has been said.
    pub fn new(marks: Marks) -> (r: Self)
        ensures
            r.wf(),
            r.marks() == marks,
            r.tokens() == seq![marks.bos],
    {
        let mut conversation: Vec<TokenId> = Vec::new();
        conversation.push(marks.bos);
        assert(conversation@ =~= seq![marks.bos]);
        Session { marks, conversation }
    }

    /// Begins a new conversation.
    pub fn clear(&mut self)
        ensures
            final(self).wf(),
            final(self).marks() == old(self).marks(),
            final(self).tokens() == seq![old(self).marks().bos],
    {
        self.conversation.clear();
        self.conversation.push(self.marks.bos);
        assert(self.conversation@ =~= seq![self.marks.bos]);
    }

    /// Adds a message of the user. Nothing is added, and the answer is `false`, where
    /// encoding the message would not come to an end.
    pub fn say(&mut self, tokenizer: &Tokenizer, text: &str) -> (r: bool)
        requires
            old(self).wf(),
        ensures
            final(self).wf(),
            final(self).marks() == old(self).marks(),
            !r ==> !encodable(tokenizer@, text@) && final(self).tokens() == old(self).tokens(),
            r ==> exists|body: Seq<TokenId>| #[trigger]
                encodes(tokenizer@, text@, body) && final(self).tokens() == old(self).tokens()
                    + user_turn(old(self).marks(), body) && final(self).continues(
                    old(self),
                    user_turn(old(self).marks(), body),
                ),
    {
        let mut body = match tokenizer.try_encode(text) {
            Some(body) => body,
            None => {
                return false;
            },
        };
        let ghost before = self.conversation@;
        let ghost taken = body@;
        self.conversation.push(self.marks.user_start);
        self.conversation.append(&mut body);
        self.conversation.push(self.marks.user_end);
        self.conversation.push(self.marks.assistant_start);
        proof {
            assert(encodes(tokenizer@, text@, taken));
            assert(self.conversation@ =~= before + user_turn(self.marks, taken));
        }
        true
    }

    /// Adds the assistant's reply, with the token that ends it.
    pub fn answer(&mut self, reply: Reply)
        requires
            old(self).wf(),
            reply.wf(),
        ensures
            final(self).wf(),
            final(self).marks() == old(self).marks(),
            final(self).tokens() == old(self).tokens() + closed_off(reply.tokens(), reply.end()),
            final(self).continues(old(self), closed_off(reply.tokens(), reply.end())),
    {
        let ghost before = self.conversation@;
        let mut turn = reply.into_turn();
        let ghost taken = turn@;
        self.conversation.append(&mut turn);
        assert(self.conversation@ =~= before + taken);
    }

    /// The tokens of the conversation.
    pub fn conversation(&self) -> (r: &Vec<TokenId>)
        ensures
            r@ == self.tokens(),
    {
        &self.conversation
    }
}

/// The tokens of a conversation after some exchanges, each a message of the user and the
/// reply, without the token that ends it.
pub open spec fn after_exchanges(
    marks: Marks,
    exchanges: Seq<(Seq<TokenId>, Seq<TokenId>)>,
) -> Seq<TokenId>
    decreases exchanges.len(),
{
    if exchanges.len() == 0 {
        seq![marks.bos]
    } else {
        let (said, replied) = exchanges.last();
        after_exchanges(marks, exchanges.drop_last()) + user_turn(marks, said) + replied.push(
            marks.assistant_end,
        )
    }
}

/// The bodies of the messages of some exchanges.
pub open spec fn exchanged_bodies(exchanges: Seq<(Seq<TokenId>, Seq<TokenId>)>) -> Seq<
    Seq<TokenId>,
>
    decreases exchanges.len(),
{
    if exchanges.len() == 0 {
        seq![]
    } else {
        exchanged_bodies(exchanges.drop_last()).push(exchanges.last().0).push(exchanges.last().1)
    }
}

/// Messages of the user and the assistant in turn.
pub open spec fn in_turn(messages: Seq<ChatMessage>) -> bool {
    forall|i: int|
        0 <= i < messages.len() ==> (#[trigger] messages[i]).role@ == if i % 2 == 0 {
            "user"@
        } else {
            "assistant"@
        }
}

/// A conversation that is held step by step has the tokens that it has when it is laid
/// out as a list of messages.
pub proof fn law_sessions_are_conversations(
    marks: Marks,
    exchanges: Seq<(Seq<TokenId>, Seq<TokenId>)>,
    messages: Seq<ChatMessage>,
)
    requires
        messages.len() == 2 * exchanges.len(),
        in_turn(messages),
    ensures
        after_exchanges(marks, exchanges) == laid_out(
            marks,
            messages,
            exchanged_bodies(exchanges),
        ),
        exchanged_bodies(exchanges).len() == messages.len(),
    decreases exchanges.len(),
{
    if exchanges.len() > 0 {
        let n = messages.len() as int;
        let bodies = exchanged_bodies(exchanges);
        let earlier = exchanges.drop_last();
        let (said, replied) = exchanges.last();
        let first = messages.drop_last().drop_last();
        assert forall|i: int| 0 <= i < first.len() implies (#[trigger] first[i]).role@ == if i % 2
            == 0 {
            "user"@
        } else {
            "assistant"@
        } by {
            assert(first[i] == messages[i]);
        }
        law_sessions_are_conversations(marks, earlier, first);
        reveal_strlit("user");
        reveal_strlit("system");
        reveal_strlit("assistant");
        assert("assistant"@.len() == 9 && "user"@.len() == 4 && "system"@.len() == 6);
        assert(messages[n - 1].role@ == "assistant"@);
        assert(messages[n - 2].role@ == "user"@);
        assert(bodies.drop_last().drop_last() =~= exchanged_bodies(earlier));
        assert(bodies.last() == replied);
        assert(bodies.drop_last().last() == said);
        let base = laid_out(marks, first, exchanged_bodies(earlier));
        assert(laid_out(marks, messages.drop_last(), bodies.drop_last()) =~= base + seq![
            marks.user_start,
        ] + said + seq![marks.user_end]);
        assert(laid_out(marks, messages, bodies) =~= base + seq![marks.user_start] + said + seq![
            marks.user_end,
        ] + seq![marks.assistant_start] + replied + seq![marks.assistant_end]);
        assert(after_exchanges(marks, exchanges) =~= laid_out(marks, messages, bodies));
    }
}

/// The lines that end a conversation or begin a new one, in whatever case, and the empty
/// line; every other line is said.
pub proof fn law_commands(input: Seq<char>, lowered: Seq<char>)
    ensures
        command_of(input, lowered) == Command::Quit <==> lowered == "quit"@ || lowered == "exit"@,
        command_of(input, lowered) == Command::Clear <==> lowered == "clear"@,
        command_of(input, lowered) == Command::Nothing <==> input.len() == 0 && lowered
            != "quit"@ && lowered != "exit"@ && lowered != "clear"@,
        command_of(input, lowered) == Command::Say <==> input.len() > 0 && lowered != "quit"@
            && lowered != "exit"@ && lowered != "clear"@,
{
    reveal_strlit("quit");
    reveal_strlit("exit");
    reveal_strlit("clear");
    assert("quit"@.len() == 4 && "exit"@.len() == 4 && "clear"@.len() == 5);
}

/// What the user says stands between the user's marks, and the assistant is to go on.
pub proof fn law_user_turns(marks: Marks, body: Seq<TokenId>)
    ensures
        ({
            let turn = user_turn(marks, body);
            let n = body.len() as int;
            &&& turn.len() == n + 3
            &&& turn[0] == marks.user_start
            &&& turn.subrange(1, n + 1) == body
            &&& turn[n + 1] == marks.user_end
            &&& turn[n + 2] == marks.assistant_start
        }),
{
    assert(user_turn(marks, body).subrange(1, body.len() as int + 1) =~= body);
}

/// What has been said stays, and what is added follows it.
pub proof fn law_conversations_only_grow(old: Session, new: Session, added: Seq<TokenId>, i: int)
    requires
        new.continues(&old, added),
    ensures
        new.marks() == old.marks(),
        new.tokens().len() == old.tokens().len() + added.len(),
        0 <= i < old.tokens().len() ==> new.tokens()[i] == old.tokens()[i],
        0 <= i < added.len() ==> new.tokens()[old.tokens().len() + i] == added[i],
{
}

} // verus!
