//! Short-term memory sessions: per-session message buffers with token counting
//! and the compression of old messages into a dense summary.
use vstd::prelude::*;
use crate::models::MemoryResult;
use crate::text::{copy_opt_string, copy_string, estimate_tokens, join_with, owned, seq_join, views};

verus! {

/// The optimized context window returned by `push_dialogue`:
/// [dense summary] + [most recent raw messages] + [relevant graph facts].
#[derive(Debug)]
pub struct ContextWindow {
    /// Dense summary of older messages that were compressed.
    pub summary: Option<String>,
    /// The most recent raw messages still in the buffer.
    pub recent_messages: Vec<String>,
    /// Relevant facts from the knowledge graph.
    pub relevant_facts: Vec<MemoryResult>,
}

/// Rough token estimate of a text: its UTF-8 byte length divided by four.
pub open spec fn tokens(text: Seq<char>) -> nat {
    ((vstd::utf8::encode_utf8(text).len() as usize) / 4) as nat
}

/// Token estimate of a string.
fn tokens_of(s: &String) -> (r: usize)
    ensures
        r == tokens(s@),
{
    estimate_tokens(s.as_str())
}

/// The summed token estimates of a list of texts.
pub open spec fn sum_tokens(texts: Seq<Seq<char>>) -> nat
    decreases texts.len(),
{
    if texts.len() == 0 {
        0
    } else {
        tokens(texts[0]) + sum_tokens(texts.drop_first())
    }
}

/// A per-session buffer.
#[derive(Debug)]
pub struct SessionBuffer {
    pub messages: Vec<String>,
    pub summary: Option<String>,
    pub token_count: usize,
}

/// The tokens a buffer holds: its messages and its summary.
pub open spec fn buffer_tokens(messages: Seq<String>, summary: Option<String>) -> nat {
    sum_tokens(views(messages)) + match summary {
        Some(s) => tokens(s@),
        None => 0,
    }
}

impl SessionBuffer {
    /// The buffer's token count is the estimate of what it holds.
    pub open spec fn inv(&self) -> bool {
        self.token_count == buffer_tokens(self.messages@, self.summary)
    }

    pub fn new() -> (r: SessionBuffer)
        ensures
            r.inv(),
            r.messages@.len() == 0,
            r.summary is None,
    {
        let r = SessionBuffer { messages: Vec::new(), summary: None, token_count: 0 };
        assert(views(r.messages@) =~= Seq::empty());
        r
    }
}

proof fn lemma_sum_push(texts: Seq<Seq<char>>, t: Seq<char>)
    ensures
        sum_tokens(texts.push(t)) == sum_tokens(texts) + tokens(t),
    decreases texts.len(),
{
    if texts.len() > 0 {
        lemma_sum_push(texts.drop_first(), t);
        assert(texts.push(t).drop_first() =~= texts.drop_first().push(t));
        assert(texts.push(t)[0] == texts[0]);
    } else {
        assert(texts.push(t).drop_first() =~= Seq::<Seq<char>>::empty());
        assert(texts.push(t)[0] == t);
        assert(sum_tokens(Seq::<Seq<char>>::empty()) == 0);
    }
}

proof fn lemma_sum_skip(texts: Seq<Seq<char>>, k: int)
    requires
        0 <= k <= texts.len(),
    ensures
        sum_tokens(texts.skip(k)) <= sum_tokens(texts),
    decreases k,
{
    if k > 0 {
        lemma_sum_skip(texts.drop_first(), k - 1);
        assert(texts.drop_first().skip(k - 1) =~= texts.skip(k));
    } else {
        assert(texts.skip(0) =~= texts);
    }
}

/// The text handed to the compressor for the oldest `messages`: the joined
/// messages, preceded by the previous summary when there is one.
pub open spec fn compression_text(summary: Option<String>, messages: Seq<Seq<char>>) -> Seq<char> {
    let joined = seq_join(messages, seq!['\n']);
    match summary {
        Some(s) => "Previous summary: "@ + s@ + "\n\nNew messages:\n"@ + joined,
        None => joined,
    }
}

/// `after` is `before` with `message` pushed onto session `id`, and `needs`
/// tells whether that session now holds more tokens than the threshold.
pub open spec fn pushed(before: SessionManager, after: SessionManager, id: Seq<char>, message: Seq<char>, needs: bool) -> bool {
    &&& after.inv()
    &&& after.threshold() == before.threshold()
    &&& after.keep() == before.keep()
    &&& after.session(id) is Some
    &&& views(after.session(id)->0.messages@) == match before.session(id) {
        Some(ob) => views(ob.messages@),
        None => Seq::empty(),
    }.push(message)
    &&& after.session(id)->0.summary == match before.session(id) {
        Some(ob) => ob.summary,
        None => None,
    }
    &&& needs == (after.session(id)->0.token_count > before.threshold())
}

/// `r` is the compression request of session `id` of `mgr`: none without the
/// session or with at most `keep` messages; otherwise the text of all but the
/// `keep` newest messages, preceded by the summary when there is one.
pub open spec fn compression_due(mgr: SessionManager, id: Seq<char>, r: Option<String>) -> bool {
    match mgr.session(id) {
        None => r is None,
        Some(b) => if b.messages@.len() <= mgr.keep() {
            r is None
        } else {
            r is Some && r->0@ == compression_text(b.summary, views(b.messages@).take(b.messages@.len() - mgr.keep()))
        },
    }
}

/// Token count above which the application compresses a session.
pub const DEFAULT_TOKEN_THRESHOLD: usize = 4000;

/// Recent messages the application keeps raw after compression.
pub const DEFAULT_KEEP_RECENT: usize = 10;

/// Per-session buffers with token counting and context compression.
pub struct SessionManager {
    sessions: Vec<(String, SessionBuffer)>,
    /// Token count above which the buffer is compressed.
    token_threshold: usize,
    /// Number of recent messages kept raw after compression.
    keep_recent: usize,
}

/// The buffer of the first session keyed `id`.
pub open spec fn find_session(sessions: Seq<(String, SessionBuffer)>, id: Seq<char>) -> Option<SessionBuffer>
    decreases sessions.len(),
{
    if sessions.len() == 0 {
        None
    } else if sessions[0].0@ == id {
        Some(sessions[0].1)
    } else {
        find_session(sessions.drop_first(), id)
    }
}

proof fn lemma_find_session_at(sessions: Seq<(String, SessionBuffer)>, id: Seq<char>, i: int)
    requires
        0 <= i < sessions.len(),
        sessions[i].0@ == id,
        forall|j: int| 0 <= j < i ==> (#[trigger] sessions[j]).0@ != id,
    ensures
        find_session(sessions, id) == Some(sessions[i].1),
    decreases i,
{
    if i > 0 {
        lemma_find_session_at(sessions.drop_first(), id, i - 1);
    }
}

proof fn lemma_find_session_none(sessions: Seq<(String, SessionBuffer)>, id: Seq<char>)
    requires
        forall|j: int| 0 <= j < sessions.len() ==> (#[trigger] sessions[j]).0@ != id,
    ensures
        find_session(sessions, id) is None,
    decreases sessions.len(),
{
    if sessions.len() > 0 {
        lemma_find_session_none(sessions.drop_first(), id);
    }
}

proof fn lemma_find_session_in(sessions: Seq<(String, SessionBuffer)>, id: Seq<char>)
    ensures
        find_session(sessions, id) is Some ==> exists|i: int|
            0 <= i < sessions.len() && (#[trigger] sessions[i]).1 == find_session(sessions, id)->0
                && sessions[i].0@ == id,
    decreases sessions.len(),
{
    if sessions.len() > 0 && sessions[0].0@ != id {
        lemma_find_session_in(sessions.drop_first(), id);
        if find_session(sessions, id) is Some {
            let i = choose|i: int|
                0 <= i < sessions.drop_first().len() && (#[trigger] sessions.drop_first()[i]).1
                    == find_session(sessions.drop_first(), id)->0 && sessions.drop_first()[i].0@ == id;
            assert(sessions[i + 1] == sessions.drop_first()[i]);
        }
    } else if sessions.len() > 0 {
        assert(sessions[0].1 == find_session(sessions, id)->0);
    }
}

proof fn lemma_find_session_at_some(sessions: Seq<(String, SessionBuffer)>, id: Seq<char>, k: int)
    requires
        0 <= k < sessions.len(),
        sessions[k].0@ == id,
    ensures
        find_session(sessions, id) is Some,
    decreases k,
{
    if k > 0 && sessions[0].0@ != id {
        lemma_find_session_at_some(sessions.drop_first(), id, k - 1);
    }
}

proof fn lemma_find_session_update(
    sessions: Seq<(String, SessionBuffer)>,
    i: int,
    e: (String, SessionBuffer),
    other: Seq<char>,
)
    requires
        0 <= i < sessions.len(),
        sessions[i].0@ == e.0@,
        other != e.0@,
    ensures
        find_session(sessions.update(i, e), other) == find_session(sessions, other),
    decreases i,
{
    if i > 0 {
        lemma_find_session_update(sessions.drop_first(), i - 1, e, other);
        assert(sessions.update(i, e).drop_first() =~= sessions.drop_first().update(i - 1, e));
        assert(sessions.update(i, e)[0] == sessions[0]);
    } else {
        assert(sessions.update(i, e).drop_first() =~= sessions.drop_first());
        assert(sessions.update(i, e)[0] == e);
    }
}

proof fn lemma_find_session_push(sessions: Seq<(String, SessionBuffer)>, e: (String, SessionBuffer), other: Seq<char>)
    requires
        other != e.0@,
    ensures
        find_session(sessions.push(e), other) == find_session(sessions, other),
    decreases sessions.len(),
{
    reveal_with_fuel(find_session, 2);
    if sessions.len() > 0 {
        lemma_find_session_push(sessions.drop_first(), e, other);
        assert(sessions.push(e).drop_first() =~= sessions.drop_first().push(e));
        assert(sessions.push(e)[0] == sessions[0]);
    } else {
        assert(sessions.push(e).drop_first() =~= Seq::<(String, SessionBuffer)>::empty());
        assert(sessions.push(e)[0] == e);
    }
}

impl SessionManager {
    /// Token count above which a buffer is compressed.
    pub closed spec fn threshold(&self) -> usize {
        self.token_threshold
    }

    /// Number of recent messages kept raw after compression.
    pub closed spec fn keep(&self) -> usize {
        self.keep_recent
    }

    pub closed spec fn inv(&self) -> bool {
        &&& forall|i: int| 0 <= i < self.sessions@.len() ==> (#[trigger] self.sessions@[i]).1.inv()
        &&& forall|i: int, j: int|
            0 <= i < j < self.sessions@.len() ==> (#[trigger] self.sessions@[i]).0@ != (
            #[trigger] self.sessions@[j]).0@
    }

    /// Token count above which a buffer is compressed.
    pub fn token_threshold(&self) -> (r: usize)
        ensures
            r == self.threshold(),
    {
        self.token_threshold
    }

    /// Number of recent messages kept raw after compression.
    pub fn keep_recent(&self) -> (r: usize)
        ensures
            r == self.keep(),
    {
        self.keep_recent
    }

    /// The buffer of session `id`, if it has one.
    pub closed spec fn session(&self, id: Seq<char>) -> Option<SessionBuffer> {
        find_session(self.sessions@, id)
    }

    pub fn new(token_threshold: usize, keep_recent: usize) -> (r: SessionManager)
        ensures
            r.inv(),
            r.threshold() == token_threshold,
            r.keep() == keep_recent,
            forall|id: Seq<char>| #[trigger] r.session(id) is None,
    {
        SessionManager { sessions: Vec::new(), token_threshold, keep_recent }
    }

    /// Every stored buffer keeps its token invariant.
    pub proof fn lemma_session_inv(&self, id: Seq<char>)
        requires
            self.inv(),
        ensures
            self.session(id) matches Some(b) ==> b.inv(),
    {
        lemma_find_session_in(self.sessions@, id);
    }

    /// A copy of the entry at `i`.
    fn copy_at(&self, i: usize) -> (r: (String, SessionBuffer))
        requires
            i < self.sessions@.len(),
        ensures
            r.0 == self.sessions@[i as int].0,
            r.1.messages@ == self.sessions@[i as int].1.messages@,
            r.1.summary == self.sessions@[i as int].1.summary,
            r.1.token_count == self.sessions@[i as int].1.token_count,
    {
        let entry = &self.sessions[i];
        (
            copy_string(&entry.0),
            SessionBuffer {
                messages: crate::conflict::copy_strings(&entry.1.messages),
                summary: copy_opt_string(&entry.1.summary),
                token_count: entry.1.token_count,
            },
        )
    }

    /// The index of session `id`.
    fn position(&self, id: &str) -> (r: Option<usize>)
        requires
            self.inv(),
        ensures
            match r {
                Some(i) => i < self.sessions@.len() && self.sessions@[i as int].0@ == id@
                    && self.session(id@) == Some(self.sessions@[i as int].1),
                None => self.session(id@) is None,
            },
    {
        let n = self.sessions.len();
        for i in 0..n
            invariant
                n == self.sessions@.len(),
                forall|j: int| 0 <= j < i ==> (#[trigger] self.sessions@[j]).0@ != id@,
        {
            if crate::text::same_text(self.sessions[i].0.as_str(), id) {
                proof {
                    lemma_find_session_at(self.sessions@, id@, i as int);
                }
                return Some(i);
            }
        }
        proof {
            lemma_find_session_none(self.sessions@, id@);
        }
        None
    }

    /// The tokens session `id` would hold after adding `message`.
    pub open spec fn tokens_after_push(&self, id: Seq<char>, message: Seq<char>) -> nat {
        match self.session(id) {
            Some(b) => (b.token_count + tokens(message)) as nat,
            None => tokens(message),
        }
    }

    /// Whether adding `message` to session `id` keeps its token count representable.
    pub fn can_push(&self, id: &str, message: &str) -> (r: bool)
        requires
            self.inv(),
        ensures
            r == (self.tokens_after_push(id@, message@) <= usize::MAX),
    {
        let t = estimate_tokens(message);
        match self.position(id) {
            Some(i) => self.sessions[i].1.token_count.checked_add(t).is_some(),
            None => true,
        }
    }

    /// Adds a message to the session's buffer (creating the buffer on first use)
    /// and reports whether the buffer now exceeds the token threshold.
    pub fn push_message(&mut self, id: &str, message: &str) -> (needs_compression: bool)
        requires
            old(self).inv(),
            old(self).tokens_after_push(id@, message@) <= usize::MAX,
        ensures
            final(self).inv(),
            final(self).threshold() == old(self).threshold(),
            final(self).keep() == old(self).keep(),
            final(self).session(id@) is Some,
            views(final(self).session(id@)->0.messages@) == match old(self).session(id@) {
                Some(ob) => views(ob.messages@),
                None => Seq::empty(),
            }.push(message@),
            final(self).session(id@)->0.summary == match old(self).session(id@) {
                Some(ob) => ob.summary,
                None => None,
            },
            final(self).session(id@)->0.token_count == old(self).tokens_after_push(id@, message@),
            needs_compression == (final(self).session(id@)->0.token_count > old(self).threshold()),
            forall|other: Seq<char>| other != id@ ==> #[trigger] final(self).session(other) == old(self).session(other),
            pushed(*old(self), *final(self), id@, message@, needs_compression),
    {
        let t = estimate_tokens(message);
        let ghost before = self.sessions@;
        match self.position(id) {
            Some(i) => {
                let (key, mut buffer) = self.copy_at(i);
                let ghost old_msgs = buffer.messages@;
                buffer.messages.push(owned(message));
                buffer.token_count = buffer.token_count + t;
                let needs = buffer.token_count > self.token_threshold;
                proof {
                    assert(before[i as int].1.inv());
                    assert(t == tokens(message@));
                    assert(views(buffer.messages@) =~= views(old_msgs).push(message@));
                    lemma_sum_push(views(old_msgs), message@);
                    assert(buffer.inv());
                }
                let entry = (key, buffer);
                let ghost e = entry;
                assert(e.1.inv());
                self.sessions.set(i, entry);
                proof {
                    assert(self.sessions@ == before.update(i as int, e));
                    assert forall|k: int| 0 <= k < self.sessions@.len() implies (#[trigger] self.sessions@[k]).1.inv() by {
                        if k != i {
                            assert(self.sessions@[k] == before[k]);
                        } else {
                            assert(self.sessions@[k] == e);
                        }
                    }
                    assert forall|a: int, b: int| 0 <= a < b < self.sessions@.len() implies (#[trigger] self.sessions@[a]).0@ != (
                    #[trigger] self.sessions@[b]).0@ by {
                        assert(self.sessions@[a].0@ == before[a].0@);
                        assert(self.sessions@[b].0@ == before[b].0@);
                    }
                    lemma_find_session_at(self.sessions@, id@, i as int);
                    assert forall|other: Seq<char>| other != id@ implies #[trigger] find_session(self.sessions@, other) == find_session(before, other) by {
                        lemma_find_session_update(before, i as int, e, other);
                    }
                }
                needs
            },
            None => {
                let mut buffer = SessionBuffer::new();
                buffer.messages.push(owned(message));
                buffer.token_count = t;
                let needs = buffer.token_count > self.token_threshold;
                proof {
                    assert(views(buffer.messages@) =~= seq![message@]);
                    assert(seq![message@].drop_first() =~= Seq::<Seq<char>>::empty());
                    assert(Seq::<Seq<char>>::empty().push(message@) =~= seq![message@]);
                    lemma_sum_push(Seq::<Seq<char>>::empty(), message@);
                    assert(sum_tokens(Seq::<Seq<char>>::empty()) == 0);
                    assert(t == tokens(message@));
                    assert(buffer.inv());
                }
                let entry = (owned(id), buffer);
                let ghost e = entry;
                assert(e.1.inv());
                self.sessions.push(entry);
                proof {
                    lemma_find_session_in(before, id@);
                    assert forall|k: int| 0 <= k < before.len() implies (#[trigger] before[k]).0@ != id@ by {
                        if before[k].0@ == id@ {
                            lemma_find_session_at_some(before, id@, k);
                        }
                    }
                    assert forall|k: int| 0 <= k < self.sessions@.len() implies (#[trigger] self.sessions@[k]).1.inv() by {
                        if k < before.len() {
                            assert(self.sessions@[k] == before[k]);
                        } else {
                            assert(self.sessions@[k] == e);
                        }
                    }
                    assert forall|a: int, b: int| 0 <= a < b < self.sessions@.len() implies (#[trigger] self.sessions@[a]).0@ != (
                    #[trigger] self.sessions@[b]).0@ by {
                        assert(self.sessions@[a] == before[a]);
                        if b < before.len() {
                            assert(self.sessions@[b] == before[b]);
                        }
                    }
                    lemma_find_session_at(self.sessions@, id@, before.len() as int);
                    assert forall|other: Seq<char>| other != id@ implies #[trigger] find_session(self.sessions@, other) == find_session(before, other) by {
                        lemma_find_session_push(before, e, other);
                    }
                }
                needs
            },
        }
    }

    /// The text to compress for session `id`: `None` when the session holds no
    /// more than `keep_recent` messages; otherwise its oldest messages (all but
    /// the `keep_recent` newest), preceded by its summary when it has one.
    pub fn compression_request(&self, id: &str) -> (r: Option<String>)
        requires
            self.inv(),
        ensures
            match self.session(id@) {
                None => r is None,
                Some(b) => if b.messages@.len() <= self.keep() {
                    r is None
                } else {
                    r is Some && r->0@ == compression_text(
                        b.summary,
                        views(b.messages@).take(b.messages@.len() - self.keep()),
                    )
                },
            },
            compression_due(*self, id@, r),
    {
        let i = match self.position(id) {
            Some(i) => i,
            None => {
                return None;
            },
        };
        let buffer = &self.sessions[i].1;
        if buffer.messages.len() <= self.keep_recent {
            return None;
        }
        let count = buffer.messages.len() - self.keep_recent;
        let mut oldest: Vec<String> = Vec::new();
        for k in 0..count
            invariant
                count <= buffer.messages@.len(),
                oldest@ == buffer.messages@.take(k as int),
        {
            oldest.push(copy_string(&buffer.messages[k]));
            assert(buffer.messages@.take(k as int).push(buffer.messages@[k as int]) =~= buffer.messages@.take(k + 1));
        }
        assert(views(oldest@) =~= views(buffer.messages@).take(count as int));
        let nl = "\n";
        proof {
            reveal_strlit("\n");
        }
        assert(nl@ =~= seq!['\n']);
        let joined = join_with(&oldest, nl);
        match &buffer.summary {
            Some(s) => {
                let mut text = owned("Previous summary: ");
                text.append(s.as_str());
                text.append("\n\nNew messages:\n");
                text.append(joined.as_str());
                Some(text)
            },
            None => Some(joined),
        }
    }

    /// The tokens session `id` would hold after its oldest messages are replaced
    /// by `new_summary`.
    pub open spec fn tokens_after_compression(&self, id: Seq<char>, new_summary: Seq<char>) -> nat {
        match self.session(id) {
            Some(b) => {
                let keep_from = if b.messages@.len() > self.keep() {
                    b.messages@.len() - self.keep()
                } else {
                    0
                };
                sum_tokens(views(b.messages@).skip(keep_from)) + tokens(new_summary)
            },
            None => 0,
        }
    }

    /// Whether compressing session `id` into `new_summary` keeps its token
    /// count representable.
    pub fn can_compress(&self, id: &str, new_summary: &str) -> (r: bool)
        requires
            self.inv(),
        ensures
            r == (self.tokens_after_compression(id@, new_summary@) <= usize::MAX),
    {
        let i = match self.position(id) {
            Some(i) => i,
            None => {
                return true;
            },
        };
        let buffer = &self.sessions[i].1;
        let keep_from = if buffer.messages.len() > self.keep_recent {
            buffer.messages.len() - self.keep_recent
        } else {
            0
        };
        let kept = Self::suffix_tokens(&buffer.messages, keep_from, buffer.token_count);
        kept.checked_add(estimate_tokens(new_summary)).is_some()
    }

    /// The summed token estimates of `messages[from..]`, bounded by `bound`.
    fn suffix_tokens(messages: &Vec<String>, from: usize, bound: usize) -> (r: usize)
        requires
            from <= messages@.len(),
            sum_tokens(views(messages@)) <= bound,
        ensures
            r == sum_tokens(views(messages@).skip(from as int)),
    {
        let ghost vs = views(messages@);
        proof {
            lemma_sum_skip(vs, from as int);
        }
        let mut total: usize = 0;
        let mut k = messages.len();
        assert(vs.skip(k as int) =~= Seq::<Seq<char>>::empty());
        while k > from
            invariant
                from <= k <= messages@.len(),
                vs == views(messages@),
                total == sum_tokens(vs.skip(k as int)),
                sum_tokens(vs.skip(from as int)) <= bound,
            decreases k,
        {
            k = k - 1;
            proof {
                assert(vs.skip(k as int).drop_first() =~= vs.skip(k + 1));
                assert(vs.skip(k as int)[0] == messages@[k as int]@);
                lemma_sum_skip(vs.skip(from as int), k - from);
                assert(vs.skip(from as int).skip(k - from) =~= vs.skip(k as int));
            }
            total = total + tokens_of(&messages[k]);
        }
        total
    }

    /// Replaces the oldest messages of session `id` (all but the `keep_recent`
    /// newest) by `new_summary` and recounts the session's tokens.
    pub fn apply_compression(&mut self, id: &str, new_summary: String)
        requires
            old(self).inv(),
            old(self).tokens_after_compression(id@, new_summary@) <= usize::MAX,
        ensures
            final(self).inv(),
            final(self).threshold() == old(self).threshold(),
            final(self).keep() == old(self).keep(),
            old(self).session(id@) is None ==> final(self).session(id@) is None,
            old(self).session(id@) is Some ==> {
                let ob = old(self).session(id@)->0;
                let keep_from = if ob.messages@.len() > old(self).keep() {
                    ob.messages@.len() - old(self).keep()
                } else {
                    0
                };
                &&& final(self).session(id@) is Some
                &&& views(final(self).session(id@)->0.messages@) == views(ob.messages@).skip(keep_from)
                &&& final(self).session(id@)->0.summary == Some(new_summary)
            },
            forall|other: Seq<char>| other != id@ ==> #[trigger] final(self).session(other) == old(self).session(other),
    {
        let i = match self.position(id) {
            Some(i) => i,
            None => {
                return;
            },
        };
        let ghost before = self.sessions@;
        let (key, buffer) = self.copy_at(i);
        proof {
            assert(before[i as int].1.inv());
        }
        let keep_from = if buffer.messages.len() > self.keep_recent {
            buffer.messages.len() - self.keep_recent
        } else {
            0
        };
        let kept = Self::suffix_tokens(&buffer.messages, keep_from, buffer.token_count);
        let mut messages: Vec<String> = Vec::new();
        let n = buffer.messages.len();
        for k in keep_from..n
            invariant
                keep_from <= n,
                n == buffer.messages@.len(),
                messages@ == buffer.messages@.subrange(keep_from as int, k as int),
        {
            messages.push(copy_string(&buffer.messages[k]));
            assert(buffer.messages@.subrange(keep_from as int, k as int).push(buffer.messages@[k as int])
                =~= buffer.messages@.subrange(keep_from as int, k + 1));
        }
        assert(views(messages@) =~= views(buffer.messages@).skip(keep_from as int));
        let summary_tokens = tokens_of(&new_summary);
        let updated = SessionBuffer {
            messages,
            summary: Some(new_summary),
            token_count: kept + summary_tokens,
        };
        let entry = (key, updated);
        let ghost e = entry;
        self.sessions.set(i, entry);
        proof {
            assert(self.sessions@ == before.update(i as int, e));
            assert forall|k: int| 0 <= k < self.sessions@.len() implies (#[trigger] self.sessions@[k]).1.inv() by {
                if k != i {
                    assert(self.sessions@[k] == before[k]);
                }
            }
            assert forall|a: int, b: int| 0 <= a < b < self.sessions@.len() implies (#[trigger] self.sessions@[a]).0@ != (
            #[trigger] self.sessions@[b]).0@ by {
                assert(self.sessions@[a].0@ == before[a].0@);
                assert(self.sessions@[b].0@ == before[b].0@);
            }
            lemma_find_session_at(self.sessions@, id@, i as int);
            assert forall|other: Seq<char>| other != id@ implies #[trigger] find_session(self.sessions@, other) == find_session(before, other) by {
                lemma_find_session_update(before, i as int, e, other);
            }
        }
    }

    /// The summary and raw messages of session `id`; a session without a
    /// buffer shows just `new_message`.
    pub fn window(&self, id: &str, new_message: &str) -> (r: (Option<String>, Vec<String>))
        requires
            self.inv(),
        ensures
            match self.session(id@) {
                Some(b) => r.0 == b.summary && r.1@ == b.messages@,
                None => r.0 is None && views(r.1@) == seq![new_message@],
            },
    {
        match self.position(id) {
            Some(i) => {
                let buffer = &self.sessions[i].1;
                (copy_opt_string(&buffer.summary), crate::conflict::copy_strings(&buffer.messages))
            },
            None => {
                let mut v: Vec<String> = Vec::new();
                v.push(owned(new_message));
                assert(views(v@) =~= seq![new_message@]);
                (None, v)
            },
        }
    }
}

} // verus!
