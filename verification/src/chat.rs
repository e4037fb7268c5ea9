//! The text-only chat template: how a conversation becomes token ids.

use crate::pretokenize::concat;
use crate::pretokenize::lemma_concat_push;
use crate::qwentok::joined;
use crate::qwentok::MissingToken;
use crate::qwentok::QwenTokenizer;
use crate::qwentok::QWEN_IM_END;
use crate::qwentok::QWEN_IM_START;
use crate::qwentok::QWEN_THINK;
use crate::qwentok_laws::lemma_encode_utf8_add;
use crate::text::law_reasoning_is_not_visible;
use crate::text::trim;
use crate::text::trimmed;
use crate::text::visible;
use crate::text::visible_part;
use crate::unicode::nfc;
use crate::unicode::text_of;
use vstd::prelude::*;
use vstd::utf8::encode_utf8;

verus! {

/// The texts of a list of question-and-answer pairs.
pub open spec fn turns(history: Seq<(String, String)>) -> Seq<(Seq<char>, Seq<char>)> {
    Seq::new(history.len(), |i: int| (history[i].0@, history[i].1@))
}

/// The text of an optional system message.
pub open spec fn system_text(system: Option<&str>) -> Option<Seq<char>> {
    match system {
        Some(s) => Some(s@),
        None => None,
    }
}

impl QwenTokenizer {
    /// `<|im_start|>role\nbody<|im_end|>\n`.
    pub open spec fn block(&self, role: Seq<char>, body: Seq<char>) -> Option<Seq<u32>> {
        joined(
            joined(
                joined(
                    joined(Some(seq![QWEN_IM_START]), self.encoded_full(role)),
                    self.encoded_full(body),
                ),
                Some(seq![QWEN_IM_END]),
            ),
            self.encoded_full("\n"@),
        )
    }

    /// A user's turn.
    pub open spec fn user_turn(&self, question: Seq<char>) -> Option<Seq<u32>> {
        self.block("user\n"@, trimmed(question))
    }

    /// The disabled reasoning block `<think>\n\n</think>\n\n`.
    pub open spec fn disabled_think(&self) -> Option<Seq<u32>> {
        joined(
            joined(
                joined(Some(seq![QWEN_THINK]), self.encoded_full("\n\n"@)),
                self.encoded_full("</think>"@),
            ),
            self.encoded_full("\n\n"@),
        )
    }

    /// `<|im_start|>assistant\n`, with the disabled reasoning block where thinking
    /// is off.
    pub open spec fn answer_head(&self, thinking: bool) -> Option<Seq<u32>> {
        let head = joined(Some(seq![QWEN_IM_START]), self.encoded_full("assistant\n"@));
        if thinking {
            head
        } else {
            joined(head, self.disabled_think())
        }
    }

    /// An assistant's past turn: only what the user saw of it.
    pub open spec fn answer_turn(&self, answer: Seq<char>, thinking: bool) -> Option<Seq<u32>> {
        joined(
            joined(
                joined(self.answer_head(thinking), self.encoded_full(visible_part(answer))),
                Some(seq![QWEN_IM_END]),
            ),
            self.encoded_full("\n"@),
        )
    }

    /// The system block, if any, and the first `n` turns.
    pub open spec fn conversation(
        &self,
        system: Option<Seq<char>>,
        history: Seq<(Seq<char>, Seq<char>)>,
        n: int,
        thinking: bool,
    ) -> Option<Seq<u32>>
        decreases n,
    {
        if n <= 0 {
            match system {
                None => Some(Seq::empty()),
                Some(content) => self.block("system\n"@, trimmed(content)),
            }
        } else {
            joined(
                joined(
                    self.conversation(system, history, n - 1, thinking),
                    self.user_turn(history[n - 1].0),
                ),
                self.answer_turn(history[n - 1].1, thinking),
            )
        }
    }

    /// The conversation up to and with the current question.
    pub open spec fn chat_prefix(
        &self,
        system: Option<Seq<char>>,
        history: Seq<(Seq<char>, Seq<char>)>,
        question: Seq<char>,
        thinking: bool,
    ) -> Option<Seq<u32>> {
        joined(
            self.conversation(system, history, history.len() as int, thinking),
            self.user_turn(question),
        )
    }

    /// What primes the assistant's answer.
    pub open spec fn priming(&self, thinking: bool) -> Option<Seq<u32>> {
        if thinking {
            joined(
                joined(self.answer_head(true), Some(seq![QWEN_THINK])),
                self.encoded_full("\n"@),
            )
        } else {
            self.answer_head(false)
        }
    }

    /// The full ids of a chat prompt; `None` where a token is missing.
    pub open spec fn chat_ids(
        &self,
        system: Option<Seq<char>>,
        history: Seq<(Seq<char>, Seq<char>)>,
        question: Seq<char>,
        thinking: bool,
    ) -> Option<Seq<u32>> {
        joined(self.chat_prefix(system, history, question, thinking), self.priming(thinking))
    }

    /// Appends a block.
    fn push_block(&self, role: &str, body: &str, ids: &mut Vec<u32>) -> (ok: bool)
        requires
            self.wf(),
        ensures
            ok <==> self.block(role@, body@) is Some,
            ok ==> final(ids)@ == old(ids)@ + self.block(role@, body@)->Some_0,
    {
        let ghost start = ids@;
        ids.push(QWEN_IM_START);
        proof {
            assert(ids@ =~= start + seq![QWEN_IM_START]);
        }
        if !self.push_full(role, ids) {
            return false;
        }
        if !self.push_full(body, ids) {
            return false;
        }
        ids.push(QWEN_IM_END);
        if !self.push_full("\n", ids) {
            return false;
        }
        proof {
            assert(ids@ =~= start + self.block(role@, body@)->Some_0);
        }
        true
    }

    /// Appends the template's disabled reasoning block.
    fn push_disabled_think(&self, ids: &mut Vec<u32>) -> (ok: bool)
        requires
            self.wf(),
        ensures
            ok <==> self.disabled_think() is Some,
            ok ==> final(ids)@ == old(ids)@ + self.disabled_think()->Some_0,
    {
        let ghost start = ids@;
        ids.push(QWEN_THINK);
        if !self.push_full("\n\n", ids) {
            return false;
        }
        if !self.push_full("</think>", ids) {
            return false;
        }
        if !self.push_full("\n\n", ids) {
            return false;
        }
        proof {
            assert(ids@ =~= start + self.disabled_think()->Some_0);
        }
        true
    }

    /// Appends the head of an assistant's turn.
    fn push_answer_head(&self, thinking: bool, ids: &mut Vec<u32>) -> (ok: bool)
        requires
            self.wf(),
        ensures
            ok <==> self.answer_head(thinking) is Some,
            ok ==> final(ids)@ == old(ids)@ + self.answer_head(thinking)->Some_0,
    {
        let ghost start = ids@;
        ids.push(QWEN_IM_START);
        if !self.push_full("assistant\n", ids) {
            return false;
        }
        if !thinking {
            if !self.push_disabled_think(ids) {
                return false;
            }
        }
        proof {
            assert(ids@ =~= start + self.answer_head(thinking)->Some_0);
        }
        true
    }

    /// Appends an assistant's past turn.
    fn push_answer(&self, answer: &str, thinking: bool, ids: &mut Vec<u32>) -> (ok: bool)
        requires
            self.wf(),
        ensures
            ok <==> self.answer_turn(answer@, thinking) is Some,
            ok ==> final(ids)@ == old(ids)@ + self.answer_turn(answer@, thinking)->Some_0,
    {
        let ghost start = ids@;
        let seen: Vec<char> = visible(answer);
        let text: String = text_of(seen.as_slice());
        if !self.push_answer_head(thinking, ids) {
            return false;
        }
        if !self.push_full(text.as_str(), ids) {
            return false;
        }
        ids.push(QWEN_IM_END);
        if !self.push_full("\n", ids) {
            return false;
        }
        proof {
            assert(ids@ =~= start + self.answer_turn(answer@, thinking)->Some_0);
        }
        true
    }

    /// Appends a user's turn.
    fn push_user(&self, question: &str, ids: &mut Vec<u32>) -> (ok: bool)
        requires
            self.wf(),
        ensures
            ok <==> self.user_turn(question@) is Some,
            ok ==> final(ids)@ == old(ids)@ + self.user_turn(question@)->Some_0,
    {
        let body: Vec<char> = trim(question);
        let text: String = text_of(body.as_slice());
        self.push_block("user\n", text.as_str(), ids)
    }

    proof fn lemma_conversation_none(
        &self,
        system: Option<Seq<char>>,
        history: Seq<(Seq<char>, Seq<char>)>,
        n: int,
        m: int,
        thinking: bool,
    )
        requires
            0 <= n <= m,
            self.conversation(system, history, n, thinking) is None,
        ensures
            self.conversation(system, history, m, thinking) is None,
        decreases m,
    {
        if n < m {
            self.lemma_conversation_none(system, history, n, m - 1, thinking);
        }
    }

    /// The full ids of the conversation up to and with the current question.
    fn prefix_ids(
        &self,
        system: Option<&str>,
        history: &[(String, String)],
        question: &str,
        thinking: bool,
    ) -> (ids: Option<Vec<u32>>)
        requires
            self.wf(),
        ensures
            ids is Some <==> self.chat_prefix(
                system_text(system),
                turns(history@),
                question@,
                thinking,
            ) is Some,
            ids matches Some(v) ==> v@ == self.chat_prefix(
                system_text(system),
                turns(history@),
                question@,
                thinking,
            )->Some_0,
    {
        let ghost sys = system_text(system);
        let ghost past = turns(history@);
        let mut ids: Vec<u32> = Vec::new();
        match system {
            Some(content) => {
                let body: Vec<char> = trim(content);
                let text: String = text_of(body.as_slice());
                if !self.push_block("system\n", text.as_str(), &mut ids) {
                    proof {
                        self.lemma_conversation_none(sys, past, 0, past.len() as int, thinking);
                    }
                    return None;
                }
                proof {
                    assert(ids@ =~= self.conversation(sys, past, 0, thinking)->Some_0);
                }
            },
            None => {
                proof {
                    assert(ids@ =~= self.conversation(sys, past, 0, thinking)->Some_0);
                }
            },
        }
        for i in 0..history.len()
            invariant
                self.wf(),
                past == turns(history@),
                self.conversation(sys, past, i as int, thinking) == Some(ids@),
                sys == system_text(system),
        {
            let ghost before = ids@;
            let ghost q = history@[i as int].0@;
            let ghost a = history@[i as int].1@;
            proof {
                assert(past[i as int] == (q, a));
            }
            if !self.push_user(history[i].0.as_str(), &mut ids) {
                proof {
                    assert(self.conversation(sys, past, i + 1, thinking) is None);
                    self.lemma_conversation_none(sys, past, i + 1, past.len() as int, thinking);
                }
                return None;
            }
            if !self.push_answer(history[i].1.as_str(), thinking, &mut ids) {
                proof {
                    assert(self.conversation(sys, past, i + 1, thinking) is None);
                    self.lemma_conversation_none(sys, past, i + 1, past.len() as int, thinking);
                }
                return None;
            }
        }
        if !self.push_user(question, &mut ids) {
            return None;
        }
        Some(ids)
    }

    proof fn lemma_chat_rows(&self, ids: Option<Seq<u32>>, more: Option<Seq<u32>>)
        requires
            ids matches Some(x) ==> self.rows_hold(x),
            more matches Some(y) ==> self.rows_hold(y),
        ensures
            joined(ids, more) matches Some(z) ==> self.rows_hold(z),
    {
    }

    proof fn lemma_block_rows(&self, role: Seq<char>, body: Seq<char>)
        requires
            self.wf(),
            QWEN_THINK < self.id_to_bytes@.len(),
        ensures
            self.block(role, body) matches Some(z) ==> self.rows_hold(z),
    {
        self.lemma_encoded_bounded(nfc(role), 0, 0);
        self.lemma_encoded_bounded(nfc(body), 0, 0);
        self.lemma_encoded_bounded(nfc("\n"@), 0, 0);
    }

    proof fn lemma_head_rows(&self, thinking: bool)
        requires
            self.wf(),
            QWEN_THINK < self.id_to_bytes@.len(),
        ensures
            self.answer_head(thinking) matches Some(z) ==> self.rows_hold(z),
            self.priming(thinking) matches Some(z) ==> self.rows_hold(z),
    {
        self.lemma_encoded_bounded(nfc("assistant\n"@), 0, 0);
        self.lemma_encoded_bounded(nfc("\n\n"@), 0, 0);
        self.lemma_encoded_bounded(nfc("</think>"@), 0, 0);
        self.lemma_encoded_bounded(nfc("\n"@), 0, 0);
    }

    proof fn lemma_answer_rows(&self, answer: Seq<char>, thinking: bool)
        requires
            self.wf(),
            QWEN_THINK < self.id_to_bytes@.len(),
        ensures
            self.answer_turn(answer, thinking) matches Some(z) ==> self.rows_hold(z),
    {
        self.lemma_head_rows(thinking);
        self.lemma_encoded_bounded(nfc(visible_part(answer)), 0, 0);
        self.lemma_encoded_bounded(nfc("\n"@), 0, 0);
    }

    proof fn lemma_conversation_rows(
        &self,
        system: Option<Seq<char>>,
        history: Seq<(Seq<char>, Seq<char>)>,
        n: int,
        thinking: bool,
    )
        requires
            self.wf(),
            QWEN_THINK < self.id_to_bytes@.len(),
        ensures
            self.conversation(system, history, n, thinking) matches Some(z) ==> self.rows_hold(z),
        decreases n,
    {
        if n <= 0 {
            if system is Some {
                self.lemma_block_rows("system\n"@, trimmed(system->Some_0));
            }
        } else {
            self.lemma_conversation_rows(system, history, n - 1, thinking);
            self.lemma_block_rows("user\n"@, trimmed(history[n - 1].0));
            self.lemma_answer_rows(history[n - 1].1, thinking);
            let before = self.conversation(system, history, n - 1, thinking);
            self.lemma_chat_rows(before, self.user_turn(history[n - 1].0));
            self.lemma_chat_rows(
                joined(before, self.user_turn(history[n - 1].0)),
                self.answer_turn(history[n - 1].1, thinking),
            );
        }
    }

    /// The ids of a prompt have rows.
    proof fn lemma_prompt_rows(
        &self,
        system: Option<Seq<char>>,
        history: Seq<(Seq<char>, Seq<char>)>,
        question: Seq<char>,
        thinking: bool,
    )
        requires
            self.wf(),
            QWEN_THINK < self.id_to_bytes@.len(),
        ensures
            self.chat_prefix(system, history, question, thinking) matches Some(z)
                ==> self.rows_hold(z),
            self.chat_ids(system, history, question, thinking) matches Some(z) ==> self.rows_hold(
                z,
            ),
    {
        let n = history.len() as int;
        self.lemma_conversation_rows(system, history, n, thinking);
        self.lemma_block_rows("user\n"@, trimmed(question));
        self.lemma_chat_rows(
            self.conversation(system, history, n, thinking),
            self.user_turn(question),
        );
        self.lemma_head_rows(thinking);
        self.lemma_chat_rows(
            self.chat_prefix(system, history, question, thinking),
            self.priming(thinking),
        );
    }

    /// Appends what primes the assistant's answer.
    fn push_priming(&self, thinking: bool, ids: &mut Vec<u32>) -> (ok: bool)
        requires
            self.wf(),
        ensures
            ok <==> self.priming(thinking) is Some,
            ok ==> final(ids)@ == old(ids)@ + self.priming(thinking)->Some_0,
    {
        if !self.push_answer_head(thinking, ids) {
            return false;
        }
        if thinking {
            ids.push(QWEN_THINK);
            if !self.push_full("\n", ids) {
                return false;
            }
        }
        proof {
            assert(ids@ =~= old(ids)@ + self.priming(thinking)->Some_0);
        }
        true
    }

    /// The chat prompt and the index at which the priming of the answer begins.
    pub fn encode_chat_split(
        &self,
        system: Option<&str>,
        history: &[(String, String)],
        question: &str,
        thinking: bool,
    ) -> (r: Result<(Vec<u32>, usize), MissingToken>)
        requires
            self.wf(),
            self.mappable(QWEN_THINK),
        ensures
            r is Ok <==> self.chat_ids(
                system_text(system),
                turns(history@),
                question@,
                thinking,
            ) is Some,
            r matches Ok(p) ==> p.0@ == self.mapped(
                self.chat_ids(system_text(system), turns(history@), question@, thinking)->Some_0,
            ),
            r matches Ok(p) ==> p.1 == self.mapped(
                self.chat_prefix(system_text(system), turns(history@), question@, thinking)->Some_0,
            ).len(),
    {
        let ghost sys = system_text(system);
        let ghost past = turns(history@);
        let mut ids: Vec<u32> = match self.prefix_ids(system, history, question, thinking) {
            Some(ids) => ids,
            None => {
                return Err(MissingToken);
            },
        };
        proof {
            if self.remap is Some {
                self.lemma_prompt_rows(sys, past, question@, thinking);
            }
        }
        let split: usize = self.map_out(copy_ids(&ids)).len();
        if !self.push_priming(thinking, &mut ids) {
            return Err(MissingToken);
        }
        Ok((self.map_out(ids), split))
    }

    /// The chat prompt with the thinking toggle: off renders the disabled block
    /// `<think>\n\n</think>\n\n` behind the assistant header.
    pub fn encode_chat_prompt(
        &self,
        system: Option<&str>,
        history: &[(String, String)],
        question: &str,
        thinking: bool,
    ) -> (r: Result<Vec<u32>, MissingToken>)
        requires
            self.wf(),
            self.mappable(QWEN_THINK),
        ensures
            r is Ok <==> self.chat_ids(
                system_text(system),
                turns(history@),
                question@,
                thinking,
            ) is Some,
            r matches Ok(ids) ==> ids@ == self.mapped(
                self.chat_ids(system_text(system), turns(history@), question@, thinking)->Some_0,
            ),
    {
        match self.encode_chat_split(system, history, question, thinking) {
            Ok((ids, _)) => Ok(ids),
            Err(e) => Err(e),
        }
    }

    /// The chat prompt with an optional leading system block, thinking on.
    pub fn encode_chat_system(
        &self,
        system: Option<&str>,
        history: &[(String, String)],
        question: &str,
    ) -> (r: Result<Vec<u32>, MissingToken>)
        requires
            self.wf(),
            self.mappable(QWEN_THINK),
        ensures
            r is Ok <==> self.chat_ids(
                system_text(system),
                turns(history@),
                question@,
                true,
            ) is Some,
            r matches Ok(ids) ==> ids@ == self.mapped(
                self.chat_ids(system_text(system), turns(history@), question@, true)->Some_0,
            ),
    {
        self.encode_chat_prompt(system, history, question, true)
    }

    /// The chat prompt without a system block, thinking on.
    pub fn encode_chat(&self, history: &[(String, String)], question: &str) -> (r: Result<
        Vec<u32>,
        MissingToken,
    >)
        requires
            self.wf(),
            self.mappable(QWEN_THINK),
        ensures
            r is Ok <==> self.chat_ids(None, turns(history@), question@, true) is Some,
            r matches Ok(ids) ==> ids@ == self.mapped(
                self.chat_ids(None, turns(history@), question@, true)->Some_0,
            ),
    {
        self.encode_chat_system(None, history, question)
    }

    proof fn lemma_conversation_ignores_later(
        &self,
        system: Option<Seq<char>>,
        history: Seq<(Seq<char>, Seq<char>)>,
        later: (Seq<char>, Seq<char>),
        n: int,
        thinking: bool,
    )
        requires
            n <= history.len(),
        ensures
            self.conversation(system, history.push(later), n, thinking) == self.conversation(
                system,
                history,
                n,
                thinking,
            ),
        decreases n,
    {
        if n > 0 {
            self.lemma_conversation_ignores_later(system, history, later, n - 1, thinking);
            assert(history.push(later)[n - 1] == history[n - 1]);
        }
    }

    /// What a prompt with one more turn is made of.
    proof fn lemma_next_turn(
        &self,
        system: Option<Seq<char>>,
        history: Seq<(Seq<char>, Seq<char>)>,
        question: Seq<char>,
        answer: Seq<char>,
        next_question: Seq<char>,
        thinking: bool,
    )
        ensures
            self.chat_ids(system, history.push((question, answer)), next_question, thinking)
                == joined(
                joined(
                    joined(
                        self.chat_prefix(system, history, question, thinking),
                        self.answer_turn(answer, thinking),
                    ),
                    self.user_turn(next_question),
                ),
                self.priming(thinking),
            ),
    {
        let n = history.len() as int;
        let longer = history.push((question, answer));
        self.lemma_conversation_ignores_later(system, history, (question, answer), n, thinking);
        assert(longer[n] == (question, answer));
        assert(longer.len() == n + 1);
    }

    /// A turn extends the one before it: the ids before the split of one prompt begin
    /// the prompt of the next turn, whatever was answered and is asked, so a cache
    /// entry stored at the split survives across turns.
    pub proof fn law_split_is_stable(
        &self,
        system: Option<Seq<char>>,
        history: Seq<(Seq<char>, Seq<char>)>,
        question: Seq<char>,
        answer: Seq<char>,
        next_question: Seq<char>,
        thinking: bool,
    )
        requires
            self.chat_ids(
                system,
                history.push((question, answer)),
                next_question,
                thinking,
            ) is Some,
        ensures
            self.chat_prefix(system, history, question, thinking) is Some,
            self.mapped(
                self.chat_prefix(system, history, question, thinking)->Some_0,
            ).is_prefix_of(
                self.mapped(
                    self.chat_ids(
                        system,
                        history.push((question, answer)),
                        next_question,
                        thinking,
                    )->Some_0,
                ),
            ),
    {
        self.lemma_next_turn(system, history, question, answer, next_question, thinking);
        let rest = lemma_joined_begins(
            self.chat_prefix(system, history, question, thinking),
            self.answer_turn(answer, thinking),
            self.user_turn(next_question),
            self.priming(thinking),
        );
        self.lemma_mapped_add(
            self.chat_prefix(system, history, question, thinking)->Some_0,
            rest,
        );
    }

    /// An answer is its head and what follows it.
    proof fn lemma_answer_begins(&self, answer: Seq<char>, thinking: bool) -> (tail: Seq<u32>)
        requires
            self.answer_turn(answer, thinking) is Some,
        ensures
            self.answer_head(thinking) is Some,
            self.answer_turn(answer, thinking)->Some_0 == self.answer_head(thinking)->Some_0
                + tail,
    {
        lemma_joined_begins(
            self.answer_head(thinking),
            self.encoded_full(visible_part(answer)),
            Some(seq![QWEN_IM_END]),
            self.encoded_full("\n"@),
        )
    }

    /// With thinking off the whole prompt, priming included, begins the prompt of the
    /// next turn: the disabled block is replayed as it was ingested.
    pub proof fn law_disabled_thinking_extends_the_stream(
        &self,
        system: Option<Seq<char>>,
        history: Seq<(Seq<char>, Seq<char>)>,
        question: Seq<char>,
        answer: Seq<char>,
        next_question: Seq<char>,
    )
        requires
            self.chat_ids(
                system,
                history.push((question, answer)),
                next_question,
                false,
            ) is Some,
        ensures
            self.chat_ids(system, history, question, false) is Some,
            self.mapped(self.chat_ids(system, history, question, false)->Some_0).is_prefix_of(
                self.mapped(
                    self.chat_ids(
                        system,
                        history.push((question, answer)),
                        next_question,
                        false,
                    )->Some_0,
                ),
            ),
    {
        self.lemma_next_turn(system, history, question, answer, next_question, false);
        let p = self.chat_prefix(system, history, question, false);
        let tail = self.lemma_answer_begins(answer, false);
        let head = self.answer_head(false)->Some_0;
        lemma_joined_longer(
            p,
            head,
            tail,
            self.answer_turn(answer, false),
            self.user_turn(next_question),
            self.priming(false),
        );
        let begun = p->Some_0 + head;
        let rest = lemma_begins(
            self.chat_ids(system, history.push((question, answer)), next_question, false)->Some_0,
            begun,
        );
        self.lemma_mapped_add(begun, rest);
    }

    proof fn lemma_conversation_shows(
        &self,
        system: Option<Seq<char>>,
        a: Seq<(Seq<char>, Seq<char>)>,
        b: Seq<(Seq<char>, Seq<char>)>,
        n: int,
        thinking: bool,
    )
        requires
            n <= a.len() == b.len(),
            forall|i: int| 0 <= i < a.len() ==> (#[trigger] a[i]).0 == b[i].0,
            forall|i: int|
                0 <= i < a.len() ==> visible_part((#[trigger] a[i]).1) == visible_part(b[i].1),
        ensures
            self.conversation(system, a, n, thinking) == self.conversation(system, b, n, thinking),
        decreases n,
    {
        if n > 0 {
            self.lemma_conversation_shows(system, a, b, n - 1, thinking);
            assert(a[n - 1].0 == b[n - 1].0);
            assert(visible_part(a[n - 1].1) == visible_part(b[n - 1].1));
        }
    }

    /// Historical reasoning is omitted: the prompt after an answer with reasoning is the one
    /// after the same answer with any other reasoning.
    pub proof fn law_past_reasoning_is_omitted(
        &self,
        system: Option<Seq<char>>,
        history: Seq<(Seq<char>, Seq<char>)>,
        i: int,
        reasoning: Seq<char>,
        other: Seq<char>,
        shown: Seq<char>,
        question: Seq<char>,
        thinking: bool,
    )
        requires
            0 <= i < history.len(),
        ensures
            self.chat_ids(
                system,
                history.update(i, (history[i].0, reasoning + ("</think>"@ + shown))),
                question,
                thinking,
            ) == self.chat_ids(
                system,
                history.update(i, (history[i].0, other + ("</think>"@ + shown))),
                question,
                thinking,
            ),
    {
        law_reasoning_is_not_visible(reasoning, shown);
        law_reasoning_is_not_visible(other, shown);
        let a = history.update(i, (history[i].0, reasoning + ("</think>"@ + shown)));
        let b = history.update(i, (history[i].0, other + ("</think>"@ + shown)));
        assert forall|k: int| 0 <= k < a.len() implies (#[trigger] a[k]).0 == b[k].0 by {}
        assert forall|k: int| 0 <= k < a.len() implies visible_part((#[trigger] a[k]).1)
            == visible_part(b[k].1) by {}
        self.lemma_conversation_shows(system, a, b, a.len() as int, thinking);
    }
}

fn copy_ids(ids: &Vec<u32>) -> (copy: Vec<u32>)
    ensures
        copy@ == ids@,
{
    let mut copy: Vec<u32> = Vec::with_capacity(ids.len());
    for i in 0..ids.len()
        invariant
            copy@ == ids@.take(i as int),
    {
        copy.push(ids[i]);
        proof {
            assert(ids@.take(i + 1) =~= ids@.take(i as int).push(ids@[i as int]));
        }
    }
    proof {
        assert(ids@.take(ids@.len() as int) =~= ids@);
    }
    copy
}

proof fn lemma_regroup(front: Seq<u8>, a: Seq<u8>, b: Seq<u8>, c: Seq<u8>)
    ensures
        front + a + b + c == front + (a + b + c),
{
    assert(front + a + b + c =~= front + (a + b + c));
}

/// The closed reasoning block in characters and in bytes.
proof fn lemma_closing_text()
    requires
        nfc("\n\n"@) == "\n\n"@,
        nfc("</think>"@) == "</think>"@,
    ensures
        encode_utf8("<|im_start|>assistant\n<think>\n\n</think>\n\n"@) == encode_utf8(
            "<|im_start|>"@,
        ) + encode_utf8("assistant\n"@) + no_reasoning_bytes(),
{
    reveal_strlit("<|im_start|>");
    reveal_strlit("assistant\n");
    reveal_strlit("<think>");
    reveal_strlit("\n\n");
    reveal_strlit("</think>");
    reveal_strlit("<|im_start|>assistant\n<think>\n\n</think>\n\n");
    let (a, b, c, d, e) = (
        "<|im_start|>"@,
        "assistant\n"@,
        "<think>"@,
        "\n\n"@,
        "</think>"@,
    );
    assert("<|im_start|>assistant\n<think>\n\n</think>\n\n"@ =~= (a + b) + (c + d + e + d));
    lemma_encode_utf8_add(a + b, c + d + e + d);
    lemma_encode_utf8_add(a, b);
    lemma_encode_utf8_add(c + d + e, d);
    lemma_encode_utf8_add(c + d, e);
    lemma_encode_utf8_add(c, d);
}

/// What a text is as bytes of a prompt: the UTF-8 of its normalization.
pub open spec fn written(text: Seq<char>) -> Seq<u8> {
    encode_utf8(nfc(text))
}

/// A message of a prompt: `<|im_start|>`, who speaks, what they say, `<|im_end|>`.
pub open spec fn message_bytes(speaker: Seq<char>, said: Seq<u8>) -> Seq<u8> {
    encode_utf8("<|im_start|>"@) + written(speaker) + said + encode_utf8("<|im_end|>"@) + written(
        "\n"@,
    )
}

/// The reasoning block that says there is none.
pub open spec fn no_reasoning_bytes() -> Seq<u8> {
    encode_utf8("<think>"@) + written("\n\n"@) + written("</think>"@) + written("\n\n"@)
}

/// What stands before an answer: an empty reasoning block where thinking is off.
pub open spec fn before_answer(thinking: bool) -> Seq<u8> {
    if thinking {
        Seq::empty()
    } else {
        no_reasoning_bytes()
    }
}

/// A past turn: the question without the white space around it, and what the user saw of
/// the answer.
pub open spec fn past_turn_bytes(turn: (Seq<char>, Seq<char>), thinking: bool) -> Seq<u8> {
    message_bytes("user\n"@, written(trimmed(turn.0))) + message_bytes(
        "assistant\n"@,
        before_answer(thinking) + written(visible_part(turn.1)),
    )
}

/// A prompt as bytes: the system message where there is one, the past turns in order, the
/// question, and the head of the answer, whose reasoning is opened where thinking is on and
/// closed where it is off.
pub open spec fn prompt_bytes(
    system: Option<Seq<char>>,
    history: Seq<(Seq<char>, Seq<char>)>,
    question: Seq<char>,
    thinking: bool,
) -> Seq<u8> {
    (match system {
        Some(content) => message_bytes("system\n"@, written(trimmed(content))),
        None => Seq::empty(),
    }) + concat(
        Seq::new(history.len(), |i: int| past_turn_bytes(history[i], thinking)),
    ) + message_bytes("user\n"@, written(trimmed(question))) + encode_utf8("<|im_start|>"@)
        + written("assistant\n"@) + (if thinking {
        encode_utf8("<think>"@) + written("\n"@)
    } else {
        no_reasoning_bytes()
    })
}

impl QwenTokenizer {
    /// The special ids of the template carry their tokens.
    pub open spec fn specials_carried(&self) -> bool {
        &&& QWEN_THINK < self.id_to_bytes@.len()
        &&& self.id_to_bytes@[QWEN_IM_START as int]@ == encode_utf8("<|im_start|>"@)
        &&& self.id_to_bytes@[QWEN_IM_END as int]@ == encode_utf8("<|im_end|>"@)
        &&& self.id_to_bytes@[QWEN_THINK as int]@ == encode_utf8("<think>"@)
    }

    /// The bytes of parts that join.
    proof fn lemma_joined_bytes(&self, a: Option<Seq<u32>>, b: Option<Seq<u32>>)
        ensures
            joined(a, b) matches Some(z) ==> a is Some && b is Some && self.full_bytes(z)
                == self.full_bytes(a->Some_0) + self.full_bytes(b->Some_0),
    {
        if joined(a, b) is Some {
            self.lemma_full_bytes_add(a->Some_0, b->Some_0);
        }
    }

    proof fn lemma_special_bytes(&self, id: u32)
        ensures
            self.full_bytes(seq![id]) == self.id_to_bytes@[id as int]@,
    {
        assert(seq![id].drop_last() =~= Seq::<u32>::empty());
        assert(self.full_bytes(Seq::empty()) =~= Seq::<u8>::empty());
        assert(self.full_bytes(seq![id]) =~= self.id_to_bytes@[id as int]@);
    }

    proof fn lemma_block_bytes(&self, role: Seq<char>, body: Seq<char>)
        requires
            self.consistent(),
            self.specials_carried(),
        ensures
            self.block(role, body) matches Some(z) ==> self.full_bytes(z) == message_bytes(
                role,
                written(body),
            ),
    {
        let a = Some(seq![QWEN_IM_START]);
        let b = joined(a, self.encoded_full(role));
        let c = joined(b, self.encoded_full(body));
        let d = joined(c, Some(seq![QWEN_IM_END]));
        self.lemma_special_bytes(QWEN_IM_START);
        self.lemma_special_bytes(QWEN_IM_END);
        self.lemma_text_bytes(role);
        self.lemma_text_bytes(body);
        self.lemma_text_bytes("\n"@);
        self.lemma_joined_bytes(a, self.encoded_full(role));
        self.lemma_joined_bytes(b, self.encoded_full(body));
        self.lemma_joined_bytes(c, Some(seq![QWEN_IM_END]));
        self.lemma_joined_bytes(d, self.encoded_full("\n"@));
    }

    proof fn lemma_think_bytes(&self)
        requires
            self.consistent(),
            self.specials_carried(),
        ensures
            self.disabled_think() matches Some(z) ==> self.full_bytes(z) == no_reasoning_bytes(),
    {
        let a = Some(seq![QWEN_THINK]);
        let b = joined(a, self.encoded_full("\n\n"@));
        let c = joined(b, self.encoded_full("</think>"@));
        self.lemma_special_bytes(QWEN_THINK);
        self.lemma_text_bytes("\n\n"@);
        self.lemma_text_bytes("</think>"@);
        self.lemma_joined_bytes(a, self.encoded_full("\n\n"@));
        self.lemma_joined_bytes(b, self.encoded_full("</think>"@));
        self.lemma_joined_bytes(c, self.encoded_full("\n\n"@));
    }

    proof fn lemma_head_bytes(&self, thinking: bool)
        requires
            self.consistent(),
            self.specials_carried(),
        ensures
            self.answer_head(thinking) matches Some(z) ==> self.full_bytes(z) == encode_utf8(
                "<|im_start|>"@,
            ) + written("assistant\n"@) + before_answer(thinking),
    {
        let a = Some(seq![QWEN_IM_START]);
        let b = joined(a, self.encoded_full("assistant\n"@));
        self.lemma_special_bytes(QWEN_IM_START);
        self.lemma_text_bytes("assistant\n"@);
        self.lemma_joined_bytes(a, self.encoded_full("assistant\n"@));
        if thinking {
            if let Some(z) = b {
                assert(self.full_bytes(z) + Seq::<u8>::empty() =~= self.full_bytes(z));
            }
        } else {
            self.lemma_think_bytes();
            self.lemma_joined_bytes(b, self.disabled_think());
        }
    }

    proof fn lemma_answer_bytes(&self, answer: Seq<char>, thinking: bool)
        requires
            self.consistent(),
            self.specials_carried(),
        ensures
            self.answer_turn(answer, thinking) matches Some(z) ==> self.full_bytes(z)
                == message_bytes(
                "assistant\n"@,
                before_answer(thinking) + written(visible_part(answer)),
            ),
    {
        let a = self.answer_head(thinking);
        let b = joined(a, self.encoded_full(visible_part(answer)));
        let c = joined(b, Some(seq![QWEN_IM_END]));
        self.lemma_head_bytes(thinking);
        self.lemma_special_bytes(QWEN_IM_END);
        self.lemma_text_bytes(visible_part(answer));
        self.lemma_text_bytes("\n"@);
        self.lemma_joined_bytes(a, self.encoded_full(visible_part(answer)));
        self.lemma_joined_bytes(b, Some(seq![QWEN_IM_END]));
        self.lemma_joined_bytes(c, self.encoded_full("\n"@));
        if let Some(z) = self.answer_turn(answer, thinking) {
            let (s, w, t, v) = (
                encode_utf8("<|im_start|>"@),
                written("assistant\n"@),
                before_answer(thinking),
                written(visible_part(answer)),
            );
            assert(s + w + t + v =~= s + w + (t + v));
        }
    }

    proof fn lemma_turn_bytes(
        &self,
        before: Option<Seq<u32>>,
        turn: (Seq<char>, Seq<char>),
        thinking: bool,
    )
        requires
            self.consistent(),
            self.specials_carried(),
        ensures
            joined(
                joined(before, self.user_turn(turn.0)),
                self.answer_turn(turn.1, thinking),
            ) matches Some(z) ==> before is Some && self.full_bytes(z) == self.full_bytes(
                before->Some_0,
            ) + past_turn_bytes(turn, thinking),
    {
        let asked = joined(before, self.user_turn(turn.0));
        self.lemma_block_bytes("user\n"@, trimmed(turn.0));
        self.lemma_answer_bytes(turn.1, thinking);
        self.lemma_joined_bytes(before, self.user_turn(turn.0));
        self.lemma_joined_bytes(asked, self.answer_turn(turn.1, thinking));
        if let Some(x) = before {
            let b = self.full_bytes(x);
            let (u, v) = (
                message_bytes("user\n"@, written(trimmed(turn.0))),
                message_bytes(
                    "assistant\n"@,
                    before_answer(thinking) + written(visible_part(turn.1)),
                ),
            );
            assert(b + u + v =~= b + (u + v));
        }
    }

    proof fn lemma_conversation_bytes(
        &self,
        system: Option<Seq<char>>,
        history: Seq<(Seq<char>, Seq<char>)>,
        n: int,
        thinking: bool,
    )
        requires
            self.consistent(),
            self.specials_carried(),
            0 <= n <= history.len(),
        ensures
            self.conversation(system, history, n, thinking) matches Some(z) ==> self.full_bytes(z)
                == (match system {
                Some(content) => message_bytes("system\n"@, written(trimmed(content))),
                None => Seq::empty(),
            }) + concat(
                Seq::new(history.len(), |i: int| past_turn_bytes(history[i], thinking)).take(n),
            ),
        decreases n,
    {
        let turns_bytes = Seq::new(
            history.len(),
            |i: int| past_turn_bytes(history[i], thinking),
        );
        let start: Seq<u8> = match system {
            Some(content) => message_bytes("system\n"@, written(trimmed(content))),
            None => Seq::empty(),
        };
        if n <= 0 {
            assert(turns_bytes.take(0) =~= Seq::<Seq<u8>>::empty());
            assert(start + Seq::<u8>::empty() =~= start);
            if let Some(content) = system {
                self.lemma_block_bytes("system\n"@, trimmed(content));
            }
        } else {
            self.lemma_conversation_bytes(system, history, n - 1, thinking);
            self.lemma_turn_bytes(
                self.conversation(system, history, n - 1, thinking),
                history[n - 1],
                thinking,
            );
            let c = concat(turns_bytes.take(n - 1));
            let turn = turns_bytes[n - 1];
            assert(turns_bytes.take(n) =~= turns_bytes.take(n - 1).push(turn));
            lemma_concat_push(turns_bytes.take(n - 1), turn);
            assert(start + c + turn =~= start + (c + turn));
        }
    }

    /// A prompt decodes to its template: whatever the vocabulary and its remap, the bytes of
    /// the ids of a prompt are those of the rendered conversation.
    pub proof fn law_prompt_renders_the_template(
        &self,
        system: Option<Seq<char>>,
        history: Seq<(Seq<char>, Seq<char>)>,
        question: Seq<char>,
        thinking: bool,
    )
        requires
            self.wf(),
            self.consistent(),
            self.specials_carried(),
            self.chat_ids(system, history, question, thinking) is Some,
        ensures
            self.ids_bytes(
                self.mapped(self.chat_ids(system, history, question, thinking)->Some_0),
            ) == prompt_bytes(system, history, question, thinking),
    {
        let n = history.len() as int;
        let all = self.chat_ids(system, history, question, thinking)->Some_0;
        let talk = self.conversation(system, history, n, thinking);
        let prefix = self.chat_prefix(system, history, question, thinking);
        let turns_bytes = Seq::new(
            history.len(),
            |i: int| past_turn_bytes(history[i], thinking),
        );
        self.lemma_prompt_rows(system, history, question, thinking);
        self.law_remap_keeps_bytes(all);
        self.lemma_conversation_bytes(system, history, n, thinking);
        assert(turns_bytes.take(n) =~= turns_bytes);
        self.lemma_block_bytes("user\n"@, trimmed(question));
        self.lemma_joined_bytes(talk, self.user_turn(question));
        self.lemma_joined_bytes(prefix, self.priming(thinking));
        self.lemma_head_bytes(thinking);
        let (s, w) = (encode_utf8("<|im_start|>"@), written("assistant\n"@));
        let p = self.full_bytes(prefix->Some_0);
        if thinking {
            let a = joined(self.answer_head(true), Some(seq![QWEN_THINK]));
            self.lemma_special_bytes(QWEN_THINK);
            self.lemma_text_bytes("\n"@);
            self.lemma_joined_bytes(self.answer_head(true), Some(seq![QWEN_THINK]));
            self.lemma_joined_bytes(a, self.encoded_full("\n"@));
            let (t, nl) = (encode_utf8("<think>"@), written("\n"@));
            assert(p + (s + w + Seq::<u8>::empty() + t + nl) =~= p + s + w + (t + nl));
        } else {
            let t = no_reasoning_bytes();
            assert(p + (s + w + t) =~= p + s + w + t);
        }
    }

    /// With thinking off a prompt ends in a closed reasoning block, so the model answers at
    /// once, and so does every past answer begin: where normalization leaves the texts of
    /// the template as they are, in just these characters.
    pub proof fn law_disabled_thinking_closes_the_block(
        &self,
        system: Option<Seq<char>>,
        history: Seq<(Seq<char>, Seq<char>)>,
        question: Seq<char>,
    ) -> (front: Seq<u8>)
        requires
            self.wf(),
            self.consistent(),
            self.specials_carried(),
            self.chat_ids(system, history, question, false) is Some,
            nfc("assistant\n"@) == "assistant\n"@,
            nfc("\n\n"@) == "\n\n"@,
            nfc("</think>"@) == "</think>"@,
        ensures
            self.ids_bytes(self.mapped(self.chat_ids(system, history, question, false)->Some_0))
                == front + encode_utf8(
                "<|im_start|>assistant\n<think>\n\n</think>\n\n"@,
            ),
    {
        self.law_prompt_renders_the_template(system, history, question, false);
        lemma_closing_text();
        let front = (match system {
            Some(content) => message_bytes("system\n"@, written(trimmed(content))),
            None => Seq::empty(),
        }) + concat(
            Seq::new(history.len(), |i: int| past_turn_bytes(history[i], false)),
        ) + message_bytes("user\n"@, written(trimmed(question)));
        lemma_regroup(
            front,
            encode_utf8("<|im_start|>"@),
            encode_utf8("assistant\n"@),
            no_reasoning_bytes(),
        );
        front
    }
}

/// Parts that join begin with the first.
proof fn lemma_joined_begins(
    a: Option<Seq<u32>>,
    b: Option<Seq<u32>>,
    c: Option<Seq<u32>>,
    d: Option<Seq<u32>>,
) -> (rest: Seq<u32>)
    requires
        joined(joined(joined(a, b), c), d) is Some,
    ensures
        a is Some && b is Some && c is Some && d is Some,
        joined(joined(joined(a, b), c), d)->Some_0 == a->Some_0 + rest,
{
    let rest = b->Some_0 + c->Some_0 + d->Some_0;
    assert(joined(joined(joined(a, b), c), d)->Some_0 =~= a->Some_0 + rest);
    rest
}

/// What begins with a list is the list and a rest.
proof fn lemma_begins(all: Seq<u32>, begun: Seq<u32>) -> (rest: Seq<u32>)
    requires
        begun.len() <= all.len(),
        all.take(begun.len() as int) == begun,
    ensures
        all == begun + rest,
{
    let rest = all.skip(begun.len() as int);
    assert(all =~= begun + rest);
    rest
}

/// Parts that join begin with the first and what begins the second.
proof fn lemma_joined_longer(
    a: Option<Seq<u32>>,
    head: Seq<u32>,
    tail: Seq<u32>,
    b: Option<Seq<u32>>,
    c: Option<Seq<u32>>,
    d: Option<Seq<u32>>,
)
    requires
        joined(joined(joined(a, b), c), d) is Some,
        b is Some ==> b->Some_0 == head + tail,
    ensures
        a is Some,
        ({
            let all = joined(joined(joined(a, b), c), d)->Some_0;
            let begun = a->Some_0 + head;
            begun.len() <= all.len() && all.take(begun.len() as int) == begun
        }),
{
    let all = joined(joined(joined(a, b), c), d)->Some_0;
    let begun = a->Some_0 + head;
    assert(all.take(begun.len() as int) =~= begun);
}

impl QwenTokenizer {
    /// The marks of the template are single ids, and what stands between two of them is
    /// encoded for itself: the name of the speaker apart from what is said.
    pub proof fn law_marks_are_single_ids(
        &self,
        system: Option<Seq<char>>,
        history: Seq<(Seq<char>, Seq<char>)>,
        question: Seq<char>,
        thinking: bool,
    )
        requires
            self.chat_ids(system, history, question, thinking) is Some,
        ensures
            ({
                let ids = self.chat_ids(system, history, question, thinking)->Some_0;
                let past = self.conversation(system, history, history.len() as int, thinking);
                let asked = seq![248045u32] + self.encoded_full("user\n"@)->Some_0
                    + self.encoded_full(trimmed(question))->Some_0 + seq![248046u32]
                    + self.encoded_full("\n"@)->Some_0;
                let opened = seq![248045u32] + self.encoded_full("assistant\n"@)->Some_0
                    + seq![248068u32];
                let rest = if thinking {
                    self.encoded_full("\n"@)->Some_0
                } else {
                    self.encoded_full("\n\n"@)->Some_0 + self.encoded_full("</think>"@)->Some_0
                        + self.encoded_full("\n\n"@)->Some_0
                };
                &&& past is Some
                &&& ids == past->Some_0 + asked + opened + rest
            }),
    {
        let ids = self.chat_ids(system, history, question, thinking)->Some_0;
        let past = self.conversation(system, history, history.len() as int, thinking)->Some_0;
        let asked = seq![248045u32] + self.encoded_full("user\n"@)->Some_0 + self.encoded_full(
            trimmed(question),
        )->Some_0 + seq![248046u32] + self.encoded_full("\n"@)->Some_0;
        assert(self.user_turn(question) == Some(asked));
        let head = seq![248045u32] + self.encoded_full("assistant\n"@)->Some_0;
        let opened = head + seq![248068u32];
        if thinking {
            let rest = self.encoded_full("\n"@)->Some_0;
            assert(self.priming(true) == Some(opened + rest));
            assert((past + asked) + (opened + rest) =~= past + asked + opened + rest);
        } else {
            let (a, b) = (self.encoded_full("\n\n"@)->Some_0, self.encoded_full("</think>"@)->Some_0);
            assert(self.disabled_think() == Some(seq![248068u32] + a + b + a));
            assert(self.priming(false) == Some(head + (seq![248068u32] + a + b + a)));
            assert(head + (seq![248068u32] + a + b + a) =~= opened + (a + b + a));
            assert((past + asked) + (opened + (a + b + a)) =~= past + asked + opened + (a + b + a));
        }
    }
}

} // verus!
