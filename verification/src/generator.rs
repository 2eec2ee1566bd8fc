use vstd::prelude::*;

verus! {

/// The end-of-sequence token used when the model names none.
pub const DEFAULT_EOS_TOKEN: u32 = 128001;

/// The system prompt used when the caller gives none.
pub open spec fn default_system_prompt() -> Seq<char> {
    "You are a helpful assistant."@
}

/// The chat prompt for one user message under a system prompt.
pub open spec fn chat_prompt_of(user: Seq<char>, system: Seq<char>) -> Seq<char> {
    "<|begin_of_text|><|start_header_id|>system<|end_header_id|>\n"@ + system
        + "<|eot_id|><|start_header_id|>user<|end_header_id|>\n"@ + user
        + "<|eot_id|><|start_header_id|>assistant<|end_header_id|>\n"@
}

/// The chat prompt for `user_message`, under `system_prompt` or, without one, under
/// "You are a helpful assistant."
pub fn chat_prompt(user_message: &str, system_prompt: Option<&str>) -> (r: String)
    ensures
        r@ == chat_prompt_of(
            user_message@,
            match system_prompt {
                Some(s) => s@,
                None => default_system_prompt(),
            },
        ),
{
    let sys = match system_prompt {
        Some(s) => s,
        None => "You are a helpful assistant.",
    };
    let mut r = String::new();
    r.append("<|begin_of_text|><|start_header_id|>system<|end_header_id|>\n");
    r.append(sys);
    r.append("<|eot_id|><|start_header_id|>user<|end_header_id|>\n");
    r.append(user_message);
    r.append("<|eot_id|><|start_header_id|>assistant<|end_header_id|>\n");
    assert(r@ =~= chat_prompt_of(user_message@, sys@));
    r
}

/// The system turn that opens a chat.
pub open spec fn system_turn_of(system: Seq<char>) -> Seq<char> {
    "<|begin_of_text|><|start_header_id|>system<|end_header_id|>\n"@ + system + "<|eot_id|>"@
}

/// A user turn, followed by the opening of the assistant's turn.
pub open spec fn user_turn_of(user: Seq<char>) -> Seq<char> {
    "<|start_header_id|>user<|end_header_id|>\n"@ + user
        + "<|eot_id|><|start_header_id|>assistant<|end_header_id|>\n"@
}

/// The single-turn chat prompt is the system turn followed by one user turn.
pub proof fn law_single_turn_chat(user: Seq<char>, system: Seq<char>)
    ensures
        chat_prompt_of(user, system) == system_turn_of(system) + user_turn_of(user),
{
    reveal_strlit("<|begin_of_text|><|start_header_id|>system<|end_header_id|>\n");
    reveal_strlit("<|eot_id|><|start_header_id|>user<|end_header_id|>\n");
    reveal_strlit("<|eot_id|>");
    reveal_strlit("<|start_header_id|>user<|end_header_id|>\n");
    assert(chat_prompt_of(user, system) =~= system_turn_of(system) + user_turn_of(user));
}

/// The opening of a multi-turn chat: the system turn with `system`.
pub fn chat_context(system: &str) -> (r: String)
    ensures
        r@ == system_turn_of(system@),
{
    let mut r = String::new();
    r.append("<|begin_of_text|><|start_header_id|>system<|end_header_id|>\n");
    r.append(system);
    r.append("<|eot_id|>");
    assert(r@ =~= system_turn_of(system@));
    r
}

/// Adds a user turn with `user` to a chat, and opens the assistant's turn.
pub fn push_user_turn(ctx: &mut String, user: &str)
    ensures
        final(ctx)@ == old(ctx)@ + user_turn_of(user@),
{
    ctx.append("<|start_header_id|>user<|end_header_id|>\n");
    ctx.append(user);
    ctx.append("<|eot_id|><|start_header_id|>assistant<|end_header_id|>\n");
    assert(ctx@ =~= old(ctx)@ + user_turn_of(user@));
}

/// Closes the assistant's open turn with its reply `reply`.
pub fn push_reply(ctx: &mut String, reply: &str)
    ensures
        final(ctx)@ == old(ctx)@ + reply@ + "<|eot_id|>"@,
{
    ctx.append(reply);
    ctx.append("<|eot_id|>");
}

/// The decisions of the decoding loop: which sampled tokens are kept and when generation
/// stops. After the prompt is read, each sampled token is handed to `step`; generation stops
/// at the end-of-sequence token or once `max_new_tokens` tokens were kept.
pub struct Decoder {
    generated: Vec<u32>,
    max_new_tokens: usize,
    eos: u32,
    finished: bool,
}

impl Decoder {
    #[verifier::type_invariant]
    closed spec fn wf(self) -> bool {
        &&& self.generated@.len() <= self.max_new_tokens
        &&& !self.generated@.contains(self.eos)
    }

    /// The tokens kept so far.
    pub closed spec fn kept(self) -> Seq<u32> {
        self.generated@
    }

    /// How many more tokens may be kept.
    pub closed spec fn budget(self) -> nat {
        (self.max_new_tokens - self.generated@.len()) as nat
    }

    /// The end-of-sequence token.
    pub closed spec fn eos_token(self) -> u32 {
        self.eos
    }

    /// Whether generation has stopped.
    pub closed spec fn is_finished(self) -> bool {
        self.finished
    }

    /// The most tokens this decoder keeps.
    pub closed spec fn limit(self) -> nat {
        self.max_new_tokens as nat
    }

    /// A decoder that keeps at most `max_new_tokens` tokens and stops at `eos_token_id`, or at
    /// token 128001 when none is given.
    pub fn new(max_new_tokens: usize, eos_token_id: Option<u32>) -> (r: Decoder)
        ensures
            r.kept() == Seq::<u32>::empty(),
            r.budget() == max_new_tokens,
            r.limit() == max_new_tokens,
            r.eos_token() == match eos_token_id {
                Some(e) => e,
                None => DEFAULT_EOS_TOKEN,
            },
            !r.is_finished(),
    {
        let eos = match eos_token_id {
            Some(e) => e,
            None => DEFAULT_EOS_TOKEN,
        };
        Decoder { generated: Vec::new(), max_new_tokens, eos, finished: false }
    }

    /// Hands the decoder the next sampled token. It is kept, and `true` returned to ask for
    /// the following token, unless generation has stopped, the budget is spent or the token
    /// is the end-of-sequence token; then generation stops and `false` is returned.
    pub fn step(&mut self, next_id: u32) -> (go_on: bool)
        ensures
            final(self).eos_token() == old(self).eos_token(),
            final(self).limit() == old(self).limit(),
            go_on == (!old(self).is_finished() && old(self).budget() > 0 && next_id != old(self).eos_token()),
            go_on ==> final(self).kept() == old(self).kept().push(next_id)
                && final(self).budget() == old(self).budget() - 1 && !final(self).is_finished(),
            !go_on ==> final(self).kept() == old(self).kept() && final(self).budget() == old(self).budget()
                && final(self).is_finished(),
            !final(self).kept().contains(final(self).eos_token()),
            final(self).kept().len() + final(self).budget() == final(self).limit(),
    {
        proof {
            use_type_invariant(&*self);
        }
        if self.finished || self.generated.len() >= self.max_new_tokens || next_id == self.eos {
            self.finished = true;
            return false;
        }
        let mut g: Vec<u32> = Vec::new();
        std::mem::swap(&mut g, &mut self.generated);
        proof {
            assert forall|x: u32| g@.push(next_id).contains(x) implies x != self.eos by {
                let i = choose|i: int| 0 <= i < g@.push(next_id).len() && g@.push(next_id)[i] == x;
                if i < g@.len() {
                    assert(g@.contains(x));
                }
            }
        }
        g.push(next_id);
        self.generated = g;
        true
    }

    /// The tokens kept so far.
    pub fn generated(&self) -> (r: &Vec<u32>)
        ensures
            r@ == self.kept(),
            !r@.contains(self.eos_token()),
            r@.len() <= self.limit(),
    {
        proof {
            use_type_invariant(self);
        }
        &self.generated
    }

    /// Whether generation has stopped.
    pub fn finished(&self) -> (r: bool)
        ensures
            r == self.is_finished(),
    {
        self.finished
    }

    /// The end-of-sequence token.
    pub fn eos(&self) -> (r: u32)
        ensures
            r == self.eos_token(),
    {
        self.eos
    }

}

} // verus!
