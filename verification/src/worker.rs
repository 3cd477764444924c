//! Workers: what turns a conversation into the tokens that a model continues.
use vstd::prelude::*;

use crate::chat::{known_role, within_limits, ChatMessage, ChatRequest};
use crate::text::{decimal, same_text, with_number};
use crate::tokenizer::scan::{decoded, lists, scan, Vocabulary};
use crate::tokenizer::special_tokens::{
    ASSISTANT_END, ASSISTANT_START, BOS, USER_END, USER_START,
};
use crate::tokenizer::vocab::lookup;
use crate::tokenizer::{Tokenizer, TokenizerError};
use crate::TokenId;

verus! {

/// The tokens that delimit a conversation and the messages in it.
#[derive(Clone, Copy, Debug, PartialEq, Eq, Structural)]
pub struct Marks {
    pub bos: TokenId,
    pub user_start: TokenId,
    pub user_end: TokenId,
    pub assistant_start: TokenId,
    pub assistant_end: TokenId,
}

/// Why a conversation has no tokens.
#[derive(Debug)]
pub enum ConversationError {
    /// A message has a role that no tokens delimit; the text is the role.
    UnsupportedRole(String),
    /// Encoding the message would not come to an end.
    Endless(usize),
}

/// One replica of the model, as far as text is concerned.
pub struct Worker {
    pub id: usize,
    pub tokenizer: Tokenizer,
    pub device: String,
    pub marks: Marks,
}

/// Whether a tokenizer has these marks.
pub open spec fn has_marks(v: Vocabulary, marks: Marks) -> bool {
    &&& lookup(v.specials, BOS@) == Some(marks.bos)
    &&& lookup(v.specials, USER_START@) == Some(marks.user_start)
    &&& lookup(v.specials, USER_END@) == Some(marks.user_end)
    &&& lookup(v.specials, ASSISTANT_START@) == Some(marks.assistant_start)
    &&& lookup(v.specials, ASSISTANT_END@) == Some(marks.assistant_end)
}

/// Whether a tokenizer has a token for every mark.
pub open spec fn knows_marks(v: Vocabulary) -> bool {
    &&& v.specials.contains_key(BOS@)
    &&& v.specials.contains_key(USER_START@)
    &&& v.specials.contains_key(USER_END@)
    &&& v.specials.contains_key(ASSISTANT_START@)
    &&& v.specials.contains_key(ASSISTANT_END@)
}

/// The tokens before and after a message of a role.
pub open spec fn boundaries(
    role: Seq<char>,
    user: (TokenId, TokenId),
    assistant: (TokenId, TokenId),
) -> Option<(TokenId, TokenId)> {
    if role == "user"@ || role == "system"@ {
        Some(user)
    } else if role == "assistant"@ {
        Some(assistant)
    } else {
        None
    }
}

/// Whether `tokens` encode `text`, with the special tokens in some order.
pub open spec fn encodes(v: Vocabulary, text: Seq<char>, tokens: Seq<TokenId>) -> bool {
    exists|names: Seq<Seq<char>>| #[trigger]
        lists(v.specials, names) && scan(v, names, text) == Some(tokens)
}

/// Whether `bodies` are encodings of the messages, one for one.
pub open spec fn bodies_of(
    v: Vocabulary,
    messages: Seq<ChatMessage>,
    bodies: Seq<Seq<TokenId>>,
) -> bool {
    &&& bodies.len() == messages.len()
    &&& forall|i: int|
        0 <= i < messages.len() ==> encodes(v, messages[i].content@, #[trigger] bodies[i])
}

/// A conversation with the given message bodies, each between the marks of its role.
pub open spec fn laid_out(
    marks: Marks,
    messages: Seq<ChatMessage>,
    bodies: Seq<Seq<TokenId>>,
) -> Seq<TokenId>
    decreases messages.len(),
{
    if messages.len() == 0 {
        seq![marks.bos]
    } else {
        let (start, end) = boundaries(
            messages.last().role@,
            (marks.user_start, marks.user_end),
            (marks.assistant_start, marks.assistant_end),
        )->0;
        laid_out(marks, messages.drop_last(), bodies.drop_last()) + seq![start] + bodies.last()
            + seq![end]
    }
}

/// Whether every role has its marks.
pub open spec fn roles_known(messages: Seq<ChatMessage>) -> bool {
    forall|i: int| 0 <= i < messages.len() ==> known_role((#[trigger] messages[i]).role@)
}

/// Whether encoding a text comes to an end, whatever the order of the special tokens.
pub open spec fn encodable(v: Vocabulary, text: Seq<char>) -> bool {
    forall|names: Seq<Seq<char>>| #[trigger]
        lists(v.specials, names) ==> scan(v, names, text) is Some
}

/// The tokens before and after a message of a role. There are none for system
/// messages: they stand between those of the user.
pub fn role_boundaries(
    role: &str,
    user_start: u32,
    user_end: u32,
    assistant_start: u32,
    assistant_end: u32,
) -> (r: Result<(u32, u32), ConversationError>)
    ensures
        match r {
            Ok(pair) => Some(pair) == boundaries(
                role@,
                (user_start, user_end),
                (assistant_start, assistant_end),
            ),
            Err(ConversationError::UnsupportedRole(text)) => !known_role(role@) && text@ == role@,
            Err(ConversationError::Endless(_)) => false,
        },
{
    if same_text(role, "user") || same_text(role, "system") {
        Ok((user_start, user_end))
    } else if same_text(role, "assistant") {
        Ok((assistant_start, assistant_end))
    } else {
        Err(ConversationError::UnsupportedRole(role.to_owned()))
    }
}

impl ConversationError {
    /// The text that says why.
    pub fn message(&self) -> (text: String)
        ensures
            text@ == match *self {
                ConversationError::UnsupportedRole(role) => "Unsupported role during encoding: "@
                    + role@,
                ConversationError::Endless(i) => "Encoding of message "@ + decimal(i as nat)
                    + " does not come to an end"@,
            },
    {
        match self {
            ConversationError::UnsupportedRole(role) => {
                let mut text = "Unsupported role during encoding: ".to_owned();
                text.append(role.as_str());
                text
            },
            ConversationError::Endless(i) => with_number(
                "Encoding of message ",
                *i,
                " does not come to an end",
            ),
        }
    }
}

impl Marks {
    /// The marks of a tokenizer.
    pub fn of(tokenizer: &Tokenizer) -> (r: Result<Self, TokenizerError>)
        ensures
            match r {
                Ok(marks) => has_marks(tokenizer@, marks),
                Err(e) => e is SpecialTokenNotFound && !knows_marks(tokenizer@),
            },
    {
        let bos = tokenizer.encode_special(BOS)?;
        let user_start = tokenizer.encode_special(USER_START)?;
        let user_end = tokenizer.encode_special(USER_END)?;
        let assistant_start = tokenizer.encode_special(ASSISTANT_START)?;
        let assistant_end = tokenizer.encode_special(ASSISTANT_END)?;
        Ok(Marks { bos, user_start, user_end, assistant_start, assistant_end })
    }
}

impl Worker {
    /// Whether the marks are the tokenizer's.
    pub open spec fn wf(&self) -> bool {
        has_marks(self.tokenizer@, self.marks)
    }

    /// A worker with a tokenizer that knows all marks; `device` says where its model runs.
    pub fn new(id: usize, device: String, tokenizer: Tokenizer) -> (r: Result<
        Self,
        TokenizerError,
    >)
        ensures
            match r {
                Ok(worker) => {
                    &&& worker.wf()
                    &&& worker.id == id
                    &&& worker.device == device
                    &&& worker.tokenizer == tokenizer
                },
                Err(e) => e is SpecialTokenNotFound && !knows_marks(tokenizer@),
            },
    {
        let marks = Marks::of(&tokenizer)?;
        Ok(Worker { id, tokenizer, device, marks })
    }

    /// The tokens of a conversation that the assistant is to continue. A message that
    /// would be encoded without end is an error, if the messages before it are in order.
    pub fn try_build_conversation(&self, messages: &Vec<ChatMessage>) -> (r: Result<
        Vec<u32>,
        ConversationError,
    >)
        ensures
            match r {
                Ok(tokens) => {
                    &&& roles_known(messages@)
                    &&& exists|bodies: Seq<Seq<TokenId>>| #[trigger]
                        bodies_of(self.tokenizer@, messages@, bodies) && tokens@ == laid_out(
                            self.marks,
                            messages@,
                            bodies,
                        ).push(self.marks.assistant_start)
                },
                Err(ConversationError::UnsupportedRole(role)) => exists|i: int|
                    {
                        &&& 0 <= i < messages@.len()
                        &&& (#[trigger] messages@[i]).role@ == role@
                        &&& !known_role(role@)
                        &&& roles_known(messages@.take(i))
                    },
                Err(ConversationError::Endless(i)) => {
                    &&& i < messages@.len()
                    &&& !encodable(self.tokenizer@, messages@[i as int].content@)
                    &&& roles_known(messages@.take(i + 1))
                },
            },
    {
        let mut tokens: Vec<u32> = Vec::new();
        tokens.push(self.marks.bos);
        let ghost mut bodies: Seq<Seq<TokenId>> = seq![];
        assert(messages@.take(0) =~= seq![]);
        assert(tokens@ =~= laid_out(self.marks, messages@.take(0), bodies));
        for i in 0..messages.len()
            invariant
                roles_known(messages@.take(i as int)),
                bodies_of(self.tokenizer@, messages@.take(i as int), bodies),
                tokens@ == laid_out(self.marks, messages@.take(i as int), bodies),
        {
            let ghost done = messages@.take(i as int);
            let ghost now = messages@.take(i + 1);
            let message = &messages[i];
            let (start, end) = match role_boundaries(
                message.role.as_str(),
                self.marks.user_start,
                self.marks.user_end,
                self.marks.assistant_start,
                self.marks.assistant_end,
            ) {
                Ok(pair) => pair,
                Err(e) => {
                    return Err(e);
                },
            };
            proof {
                assert(now.drop_last() =~= done);
                assert(now.last() == *message);
                assert forall|k: int| 0 <= k < now.len() implies known_role(
                    (#[trigger] now[k]).role@,
                ) by {
                    if k < i {
                        assert(now[k] == done[k]);
                    }
                }
            }
            let mut body = match self.tokenizer.try_encode(message.content.as_str()) {
                Some(body) => body,
                None => {
                    return Err(ConversationError::Endless(i));
                },
            };
            let ghost sofar = tokens@;
            let ghost taken = body@;
            proof {
                let more = bodies.push(taken);
                assert(encodes(self.tokenizer@, message.content@, taken));
                assert forall|k: int| 0 <= k < now.len() implies encodes(
                    self.tokenizer@,
                    now[k].content@,
                    #[trigger] more[k],
                ) by {
                    if k < i {
                        assert(now[k] == done[k]);
                        assert(more[k] == bodies[k]);
                    }
                }
                assert(more.drop_last() =~= bodies);
                bodies = more;
            }
            tokens.push(start);
            tokens.append(&mut body);
            tokens.push(end);
            assert(tokens@ =~= sofar + seq![start] + taken + seq![end]);
        }
        assert(messages@.take(messages@.len() as int) =~= messages@);
        tokens.push(self.marks.assistant_start);
        Ok(tokens)
    }

    /// The tokens of a conversation that the assistant is to continue.
    pub fn build_conversation(&self, messages: &Vec<ChatMessage>) -> (r: Result<
        Vec<u32>,
        ConversationError,
    >)
        requires
            forall|i: int|
                0 <= i < messages@.len() ==> encodable(
                    self.tokenizer@,
                    (#[trigger] messages@[i]).content@,
                ),
        ensures
            match r {
                Ok(tokens) => {
                    &&& roles_known(messages@)
                    &&& exists|bodies: Seq<Seq<TokenId>>| #[trigger]
                        bodies_of(self.tokenizer@, messages@, bodies) && tokens@ == laid_out(
                            self.marks,
                            messages@,
                            bodies,
                        ).push(self.marks.assistant_start)
                },
                Err(ConversationError::UnsupportedRole(role)) => exists|i: int|
                    {
                        &&& 0 <= i < messages@.len()
                        &&& (#[trigger] messages@[i]).role@ == role@
                        &&& !known_role(role@)
                        &&& roles_known(messages@.take(i))
                    },
                Err(ConversationError::Endless(_)) => false,
            },
    {
        self.try_build_conversation(messages)
    }

    /// The text to send for a token; nothing is sent where the text is empty.
    pub fn emitted_text(&self, token: TokenId) -> (r: Option<String>)
        ensures
            match r {
                Some(text) => text@.len() > 0 && text@ == decoded(
                    self.tokenizer@,
                    seq![token],
                    seq![],
                ),
                None => decoded(self.tokenizer@, seq![token], seq![]).len() == 0,
            },
    {
        let mut tokens: Vec<TokenId> = Vec::new();
        tokens.push(token);
        assert(tokens@ =~= seq![token]);
        match self.tokenizer.decode(tokens.as_slice()) {
            Ok(text) => if text.as_str().is_empty() {
                None
            } else {
                Some(text)
            },
            Err(_) => None,
        }
    }
}

/// Every message of a request that is accepted has a role with marks.
pub proof fn law_accepted_roles_have_marks(request: ChatRequest, marks: Marks)
    requires
        within_limits(request),
    ensures
        roles_known(request.messages@),
        forall|i: int|
            0 <= i < request.messages@.len() ==> boundaries(
                (#[trigger] request.messages@[i]).role@,
                (marks.user_start, marks.user_end),
                (marks.assistant_start, marks.assistant_end),
            ) is Some,
{
}

/// The number of tokens in some bodies.
pub open spec fn body_tokens(bodies: Seq<Seq<TokenId>>) -> nat
    decreases bodies.len(),
{
    if bodies.len() == 0 {
        0
    } else {
        body_tokens(bodies.drop_last()) + bodies.last().len()
    }
}

/// A conversation begins with the token for its beginning, and has two more tokens for
/// each message than the messages themselves.
pub proof fn law_conversation_frame(
    marks: Marks,
    messages: Seq<ChatMessage>,
    bodies: Seq<Seq<TokenId>>,
)
    requires
        bodies.len() == messages.len(),
    ensures
        laid_out(marks, messages, bodies).len() == 1 + 2 * messages.len() + body_tokens(bodies),
        laid_out(marks, messages, bodies)[0] == marks.bos,
    decreases messages.len(),
{
    if messages.len() > 0 {
        law_conversation_frame(marks, messages.drop_last(), bodies.drop_last());
    }
}

/// Messages of the system are laid out as those of the user are.
pub proof fn law_system_messages_are_user_messages(
    marks: Marks,
    messages: Seq<ChatMessage>,
    others: Seq<ChatMessage>,
    bodies: Seq<Seq<TokenId>>,
)
    requires
        others.len() == messages.len(),
        forall|i: int|
            0 <= i < messages.len() ==> {
                ||| (#[trigger] others[i]).role@ == messages[i].role@
                ||| messages[i].role@ == "system"@ && others[i].role@ == "user"@
            },
    ensures
        laid_out(marks, messages, bodies) == laid_out(marks, others, bodies),
    decreases messages.len(),
{
    if messages.len() > 0 {
        let (first, first_others) = (messages.drop_last(), others.drop_last());
        assert forall|i: int| 0 <= i < first.len() implies {
            ||| (#[trigger] first_others[i]).role@ == first[i].role@
            ||| first[i].role@ == "system"@ && first_others[i].role@ == "user"@
        } by {
            assert(others[i] == first_others[i]);
        }
        law_system_messages_are_user_messages(marks, first, first_others, bodies.drop_last());
        assert(others[messages.len() - 1] == others.last());
    }
}

/// The marks of a tokenizer are its special tokens with these names.
pub proof fn law_marks_by_name(v: Vocabulary, marks: Marks)
    requires
        has_marks(v, marks),
    ensures
        knows_marks(v),
        v.specials.contains_key("<|bos|>"@) && v.specials["<|bos|>"@] == marks.bos,
        v.specials.contains_key("<|user_start|>"@) && v.specials["<|user_start|>"@]
            == marks.user_start,
        v.specials.contains_key("<|user_end|>"@) && v.specials["<|user_end|>"@] == marks.user_end,
        v.specials.contains_key("<|assistant_start|>"@) && v.specials["<|assistant_start|>"@]
            == marks.assistant_start,
        v.specials.contains_key("<|assistant_end|>"@) && v.specials["<|assistant_end|>"@]
            == marks.assistant_end,
{
}

/// A tokenizer that has a special token of each of these names has marks.
pub proof fn law_names_make_marks(v: Vocabulary)
    ensures
        knows_marks(v) <==> v.specials.contains_key("<|bos|>"@) && v.specials.contains_key(
            "<|user_start|>"@,
        ) && v.specials.contains_key("<|user_end|>"@) && v.specials.contains_key(
            "<|assistant_start|>"@,
        ) && v.specials.contains_key("<|assistant_end|>"@),
{
}

/// A conversation begins with the token for its beginning. A message of the user or the
/// system adds its tokens between the user's marks, one of the assistant between the
/// assistant's, and whatever was laid out before stays as it is.
pub proof fn law_messages_are_laid_out_in_order(
    marks: Marks,
    messages: Seq<ChatMessage>,
    bodies: Seq<Seq<TokenId>>,
    message: ChatMessage,
    body: Seq<TokenId>,
)
    requires
        bodies.len() == messages.len(),
    ensures
        laid_out(marks, seq![], seq![]) == seq![marks.bos],
        message.role@ == "user"@ || message.role@ == "system"@ ==> laid_out(
            marks,
            messages.push(message),
            bodies.push(body),
        ) == laid_out(marks, messages, bodies) + seq![marks.user_start] + body + seq![
            marks.user_end,
        ],
        message.role@ == "assistant"@ ==> laid_out(
            marks,
            messages.push(message),
            bodies.push(body),
        ) == laid_out(marks, messages, bodies) + seq![marks.assistant_start] + body + seq![
            marks.assistant_end,
        ],
{
    reveal_strlit("user");
    reveal_strlit("system");
    reveal_strlit("assistant");
    assert("assistant"@.len() == 9 && "user"@.len() == 4 && "system"@.len() == 6);
    assert(messages.push(message).drop_last() =~= messages);
    assert(bodies.push(body).drop_last() =~= bodies);
}

/// The roles that have marks are those of the user, the assistant and the system.
pub proof fn law_known_roles(messages: Seq<ChatMessage>)
    ensures
        roles_known(messages) <==> forall|i: int|
            0 <= i < messages.len() ==> {
                ||| (#[trigger] messages[i]).role@ == "user"@
                ||| messages[i].role@ == "assistant"@
                ||| messages[i].role@ == "system"@
            },
{
    if roles_known(messages) {
        assert forall|i: int| 0 <= i < messages.len() implies {
            ||| (#[trigger] messages[i]).role@ == "user"@
            ||| messages[i].role@ == "assistant"@
            ||| messages[i].role@ == "system"@
        } by {
            assert(known_role(messages[i].role@));
        }
    }
}

/// Each role has marks of its own, but for the system's, which are the user's; no other
/// text is a role.
pub proof fn law_marks_of_roles(
    role: Seq<char>,
    user: (TokenId, TokenId),
    assistant: (TokenId, TokenId),
)
    ensures
        boundaries("user"@, user, assistant) == Some(user),
        boundaries("system"@, user, assistant) == Some(user),
        boundaries("assistant"@, user, assistant) == Some(assistant),
        role != "user"@ && role != "system"@ && role != "assistant"@ ==> boundaries(
            role,
            user,
            assistant,
        ) is None,
{
    reveal_strlit("user");
    reveal_strlit("system");
    reveal_strlit("assistant");
    assert("assistant"@.len() == 9 && "user"@.len() == 4 && "system"@.len() == 6);
}

/// Where no special token begins another one, a message has one encoding: the one that
/// comes of trying the special tokens in any order.
pub proof fn law_messages_have_one_encoding(
    v: Vocabulary,
    names: Seq<Seq<char>>,
    text: Seq<char>,
    tokens: Seq<TokenId>,
)
    requires
        crate::tokenizer::laws::prefix_free(v.specials),
        lists(v.specials, names),
    ensures
        encodes(v, text, tokens) <==> scan(v, names, text) == Some(tokens),
        encodable(v, text) <==> scan(v, names, text) is Some,
{
    assert forall|other: Seq<Seq<char>>| #[trigger] lists(v.specials, other) implies scan(
        v,
        other,
        text,
    ) == scan(v, names, text) by {
        crate::tokenizer::laws::law_special_order_is_irrelevant(v, other, names, text);
    }
}

} // verus!
