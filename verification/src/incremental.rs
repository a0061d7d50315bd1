//! Incremental tokenization for generation: bytes arrive a token at a time,
//! and ids are fixed only once no later byte can change them.
use vstd::prelude::*;
use vstd::string::StringSliceAdditionalSpecFns;
use crate::byte_token::{self, append_token_bytes};
use crate::trie::{self, Trie, NONE};

verus! {

/// The last `context_len` ids, or all of them padded on the left with `pad`
/// up to `context_len`.
pub open spec fn context_window(ids: Seq<usize>, context_len: int, pad: usize) -> Seq<usize> {
    if ids.len() > context_len {
        ids.subrange(ids.len() - context_len, ids.len() as int)
    } else {
        Seq::new((context_len - ids.len()) as nat, |i: int| pad) + ids
    }
}

/// Ids widened to `usize`.
pub open spec fn widen(ids: Seq<u32>) -> Seq<usize> {
    ids.map_values(|x: u32| x as usize)
}

/// A window no wider than the ids after `a` does not see `a`.
proof fn lemma_window_suffix(a: Seq<usize>, b: Seq<usize>, n: int, pad: usize)
    requires
        0 <= n <= b.len(),
    ensures
        context_window(a + b, n, pad) == context_window(b, n, pad),
{
    let ab = a + b;
    if b.len() > n {
        assert(ab.subrange(ab.len() - n, ab.len() as int) =~= b.subrange(b.len() - n, b.len() as int));
    } else {
        assert(Seq::new((n - b.len()) as nat, |i: int| pad) + b =~= b);
        if ab.len() > n {
            assert(ab.subrange(ab.len() - n, ab.len() as int) =~= b);
        } else {
            assert(a.len() == 0);
            assert(ab =~= b);
        }
    }
}


/// Where fixing ids stops when stepping greedily through the pending bytes
/// `p` from `pos`: at the end of `p`, or at the first step position whose
/// remaining bytes a longer vocabulary entry could still extend.
pub open spec fn settle_point(dict: Map<Seq<u8>, u32>, base: u32, p: Seq<u8>, pos: int) -> int
    decreases p.len() - pos,
{
    if pos < 0 || pos >= p.len() || trie::has_extension(dict, p.subrange(pos, p.len() as int)) {
        pos
    } else {
        let (id, k) = trie::step_at(dict, base, p, pos);
        if k <= 0 || pos + k > p.len() {
            pos
        } else {
            settle_point(dict, base, p, pos + k)
        }
    }
}

/// The ids fixed on the way from `pos` to `settle_point`.
pub open spec fn settled_ids(dict: Map<Seq<u8>, u32>, base: u32, p: Seq<u8>, pos: int) -> Seq<u32>
    decreases p.len() - pos,
{
    if pos < 0 || pos >= p.len() || trie::has_extension(dict, p.subrange(pos, p.len() as int)) {
        Seq::empty()
    } else {
        let (id, k) = trie::step_at(dict, base, p, pos);
        if k <= 0 || pos + k > p.len() {
            Seq::empty()
        } else {
            seq![id] + settled_ids(dict, base, p, pos + k)
        }
    }
}

/// Fixing the step at `pos` of the pending bytes `p0`, which no following
/// byte can change.
proof fn lemma_commit(
    dict: Map<Seq<u8>, u32>,
    base: u32,
    p0: Seq<u8>,
    fixed: Seq<u32>,
    pos: int,
    id: u32,
    step: int,
)
    requires
        0 <= pos < p0.len(),
        !trie::has_extension(dict, p0.subrange(pos, p0.len() as int)),
        trie::step_at(dict, base, p0, pos) == (id, step),
        forall|e: Seq<u8>|
            #[trigger] trie::tokenize_spec(dict, base, p0 + e) == fixed + trie::tokenize_from(
                dict,
                base,
                p0 + e,
                pos,
            ),
    ensures
        forall|e: Seq<u8>|
            #[trigger] trie::tokenize_spec(dict, base, p0 + e) == fixed.push(id)
                + trie::tokenize_from(dict, base, p0 + e, pos + step),
{
    assert forall|e: Seq<u8>|
        #[trigger] trie::tokenize_spec(dict, base, p0 + e) == fixed.push(id) + trie::tokenize_from(
            dict,
            base,
            p0 + e,
            pos + step,
        ) by {
        trie::lemma_committed_step(dict, base, p0, e, pos);
        assert(fixed + (seq![id] + trie::tokenize_from(dict, base, p0 + e, pos + step))
            =~= fixed.push(id) + trie::tokenize_from(dict, base, p0 + e, pos + step));
    }
}

/// Dropping the fixed bytes from the pending ones keeps the agreement.
proof fn lemma_finish(
    dict: Map<Seq<u8>, u32>,
    base: u32,
    history: Seq<u8>,
    dropped: Seq<u32>,
    s0: Seq<u32>,
    fixed: Seq<u32>,
    p0: Seq<u8>,
    pos: int,
)
    requires
        0 <= pos <= p0.len(),
        forall|e: Seq<u8>|
            #[trigger] trie::tokenize_spec(dict, base, history + e) == dropped + s0
                + trie::tokenize_spec(dict, base, p0 + e),
        forall|e: Seq<u8>|
            #[trigger] trie::tokenize_spec(dict, base, p0 + e) == fixed + trie::tokenize_from(
                dict,
                base,
                p0 + e,
                pos,
            ),
    ensures
        forall|e: Seq<u8>|
            #[trigger] trie::tokenize_spec(dict, base, history + e) == dropped + (s0 + fixed)
                + trie::tokenize_spec(dict, base, p0.subrange(pos, p0.len() as int) + e),
{
    assert forall|e: Seq<u8>|
        #[trigger] trie::tokenize_spec(dict, base, history + e) == dropped + (s0 + fixed)
            + trie::tokenize_spec(dict, base, p0.subrange(pos, p0.len() as int) + e) by {
        assert(trie::tokenize_spec(dict, base, history + e) == dropped + s0 + trie::tokenize_spec(
            dict,
            base,
            p0 + e,
        ));
        assert(trie::tokenize_spec(dict, base, p0 + e) == fixed + trie::tokenize_from(
            dict,
            base,
            p0 + e,
            pos,
        ));
        trie::lemma_tokenize_shift(dict, base, p0 + e, pos);
        assert((p0 + e).subrange(pos, (p0 + e).len() as int) =~= p0.subrange(pos, p0.len() as int)
            + e);
        assert(dropped + s0 + (fixed + trie::tokenize_spec(
            dict,
            base,
            p0.subrange(pos, p0.len() as int) + e,
        )) =~= dropped + (s0 + fixed) + trie::tokenize_spec(
            dict,
            base,
            p0.subrange(pos, p0.len() as int) + e,
        ));
    }
}

/// Tokenizer state fed byte by byte: ids that no later byte can change, and
/// the bytes after them whose tokenization may still change.
pub struct IncrementalTokenizer<'a> {
    trie: &'a Trie,
    stable_tokens: Vec<u32>,
    pending: Vec<u8>,
    max_tokens: usize,
    history: Ghost<Seq<u8>>,
    dropped: Ghost<Seq<u32>>,
}

impl<'a> IncrementalTokenizer<'a> {
    /// All bytes pushed so far.
    pub closed spec fn history(&self) -> Seq<u8> {
        self.history@
    }

    /// Fixed ids that were let go to keep at most `max_tokens` of them.
    pub closed spec fn dropped(&self) -> Seq<u32> {
        self.dropped@
    }

    /// Fixed ids that are kept.
    pub closed spec fn stable(&self) -> Seq<u32> {
        self.stable_tokens@
    }

    /// Bytes whose ids are not fixed yet.
    pub closed spec fn pending(&self) -> Seq<u8> {
        self.pending@
    }

    pub closed spec fn max_tokens(&self) -> usize {
        self.max_tokens
    }

    pub closed spec fn dict(&self) -> Map<Seq<u8>, u32> {
        self.trie.dict()
    }

    pub closed spec fn base(&self) -> u32 {
        self.trie.base()
    }

    /// The fixed ids, followed by the greedy tokenization of the pending bytes
    /// and of anything that may follow them, are the greedy tokenization of
    /// all bytes pushed and of what follows.
    pub closed spec fn wf(&self) -> bool {
        &&& self.trie.wf()
        &&& self.stable_tokens@.len() <= self.max_tokens
        &&& self.dropped@.len() > 0 ==> self.stable_tokens@.len() == self.max_tokens
        &&& forall|e: Seq<u8>|
            #[trigger] trie::tokenize_spec(self.trie.dict(), self.trie.base(), self.history@ + e)
                == self.dropped@ + self.stable_tokens@ + trie::tokenize_spec(
                self.trie.dict(),
                self.trie.base(),
                self.pending@ + e,
            )
    }

    /// What the tokenizer holds agrees with tokenizing all pushed bytes at
    /// once: the batch tokenization is the dropped ids, then the kept ids,
    /// then the tokenization of the pending bytes.
    pub proof fn lemma_agrees_with_batch(&self)
        requires
            self.wf(),
        ensures
            trie::tokenize_spec(self.dict(), self.base(), self.history()) == self.dropped()
                + self.stable() + trie::tokenize_spec(self.dict(), self.base(), self.pending()),
    {
        let e = Seq::<u8>::empty();
        assert(self.history@ + e =~= self.history@);
        assert(self.pending@ + e =~= self.pending@);
        assert(trie::tokenize_spec(self.trie.dict(), self.trie.base(), self.history@ + e)
            == self.dropped@ + self.stable_tokens@ + trie::tokenize_spec(
            self.trie.dict(),
            self.trie.base(),
            self.pending@ + e,
        ));
    }

    /// A tokenizer that has seen nothing and keeps at most `max_tokens` fixed ids.
    pub fn new(trie: &'a Trie, max_tokens: usize) -> (r: Self)
        requires
            trie.wf(),
        ensures
            r.wf(),
            r.history() == Seq::<u8>::empty(),
            r.dropped() == Seq::<u32>::empty(),
            r.stable() == Seq::<u32>::empty(),
            r.pending() == Seq::<u8>::empty(),
            r.max_tokens() == max_tokens,
            r.dict() == trie.dict(),
            r.base() == trie.base(),
    {
        let r = IncrementalTokenizer {
            trie,
            stable_tokens: Vec::with_capacity(max_tokens),
            pending: Vec::new(),
            max_tokens,
            history: Ghost(Seq::empty()),
            dropped: Ghost(Seq::empty()),
        };
        assert forall|e: Seq<u8>|
            #[trigger] trie::tokenize_spec(r.trie.dict(), r.trie.base(), r.history@ + e)
                == r.dropped@ + r.stable_tokens@ + trie::tokenize_spec(
                r.trie.dict(),
                r.trie.base(),
                r.pending@ + e,
            ) by {
            assert(r.history@ + e =~= e);
            assert(r.pending@ + e =~= e);
            assert(r.dropped@ + r.stable_tokens@ + trie::tokenize_spec(
                r.trie.dict(),
                r.trie.base(),
                e,
            ) =~= trie::tokenize_spec(r.trie.dict(), r.trie.base(), e));
        }
        r
    }

    /// Appends the raw bytes of a vocabulary entry and fixes what it can.
    pub fn push_token(&mut self, token: &str)
        requires
            old(self).wf(),
        ensures
            final(self).wf(),
            final(self).history() == old(self).history() + byte_token::token_bytes(
                token.spec_bytes(),
            ),
            final(self).max_tokens() == old(self).max_tokens(),
            final(self).dict() == old(self).dict(),
            final(self).base() == old(self).base(),
            final(self).pending() == (old(self).pending() + byte_token::token_bytes(token.spec_bytes())).subrange(
                settle_point(old(self).dict(), old(self).base(), old(self).pending() + byte_token::token_bytes(token.spec_bytes()), 0),
                (old(self).pending() + byte_token::token_bytes(token.spec_bytes())).len() as int,
            ),
            final(self).dropped() + final(self).stable() == old(self).dropped() + old(self).stable()
                + settled_ids(old(self).dict(), old(self).base(), old(self).pending() + byte_token::token_bytes(token.spec_bytes()), 0),
            final(self).stable().len() as int == if old(self).stable().len() + settled_ids(
                old(self).dict(),
                old(self).base(),
                old(self).pending() + byte_token::token_bytes(token.spec_bytes()),
                0,
            ).len() > old(self).max_tokens() {
                old(self).max_tokens() as int
            } else {
                (old(self).stable().len() + settled_ids(
                    old(self).dict(),
                    old(self).base(),
                    old(self).pending() + byte_token::token_bytes(token.spec_bytes()),
                    0,
                ).len()) as int
            },
    {
        let ghost added = byte_token::token_bytes(token.spec_bytes());
        let ghost old_pending = self.pending@;
        append_token_bytes(token, &mut self.pending);
        self.record_appended(Ghost(old_pending), Ghost(added));
        self.resolve_stable();
    }

    /// Appends raw bytes and fixes what it can.
    pub fn push_raw_bytes(&mut self, bytes: &[u8])
        requires
            old(self).wf(),
        ensures
            final(self).wf(),
            final(self).history() == old(self).history() + bytes@,
            final(self).max_tokens() == old(self).max_tokens(),
            final(self).dict() == old(self).dict(),
            final(self).base() == old(self).base(),
            final(self).pending() == (old(self).pending() + bytes@).subrange(
                settle_point(old(self).dict(), old(self).base(), old(self).pending() + bytes@, 0),
                (old(self).pending() + bytes@).len() as int,
            ),
            final(self).dropped() + final(self).stable() == old(self).dropped() + old(self).stable()
                + settled_ids(old(self).dict(), old(self).base(), old(self).pending() + bytes@, 0),
            final(self).stable().len() as int == if old(self).stable().len() + settled_ids(
                old(self).dict(),
                old(self).base(),
                old(self).pending() + bytes@,
                0,
            ).len() > old(self).max_tokens() {
                old(self).max_tokens() as int
            } else {
                (old(self).stable().len() + settled_ids(
                    old(self).dict(),
                    old(self).base(),
                    old(self).pending() + bytes@,
                    0,
                ).len()) as int
            },
    {
        let ghost old_pending = self.pending@;
        let mut i: usize = 0;
        while i < bytes.len()
            invariant
                0 <= i <= bytes@.len(),
                self.pending@ == old_pending + bytes@.subrange(0, i as int),
                self.history@ == old(self).history@,
                self.dropped@ == old(self).dropped@,
                self.stable_tokens@ == old(self).stable_tokens@,
                self.trie == old(self).trie,
                self.max_tokens == old(self).max_tokens,
            decreases bytes.len() - i,
        {
            self.pending.push(bytes[i]);
            i += 1;
            assert(self.pending@ =~= old_pending + bytes@.subrange(0, i as int));
        }
        assert(bytes@.subrange(0, i as int) =~= bytes@);
        self.record_appended(Ghost(old_pending), Ghost(bytes@));
        self.resolve_stable();
    }

    /// After `added` joined the pending bytes, recording it in the history
    /// keeps the agreement with batch tokenization.
    fn record_appended(&mut self, Ghost(old_pending): Ghost<Seq<u8>>, Ghost(added): Ghost<Seq<u8>>)
        requires
            ({
                let s = *old(self);
                &&& s.trie.wf()
                &&& s.stable_tokens@.len() <= s.max_tokens
                &&& s.dropped@.len() > 0 ==> s.stable_tokens@.len() == s.max_tokens
                &&& forall|e: Seq<u8>|
                    #[trigger] trie::tokenize_spec(s.trie.dict(), s.trie.base(), s.history@ + e)
                        == s.dropped@ + s.stable_tokens@ + trie::tokenize_spec(
                        s.trie.dict(),
                        s.trie.base(),
                        old_pending + e,
                    )
            }),
            old(self).pending@ == old_pending + added,
        ensures
            final(self).wf(),
            final(self).history@ == old(self).history@ + added,
            final(self).pending@ == old(self).pending@,
            final(self).stable_tokens@ == old(self).stable_tokens@,
            final(self).dropped@ == old(self).dropped@,
            final(self).trie == old(self).trie,
            final(self).max_tokens == old(self).max_tokens,
    {
        let ghost h0 = self.history@;
        proof {
            self.history@ = h0 + added;
        }
        assert forall|e: Seq<u8>|
            #[trigger] trie::tokenize_spec(self.trie.dict(), self.trie.base(), self.history@ + e)
                == self.dropped@ + self.stable_tokens@ + trie::tokenize_spec(
                self.trie.dict(),
                self.trie.base(),
                self.pending@ + e,
            ) by {
            let e2 = added + e;
            assert(h0 + e2 =~= self.history@ + e);
            assert(old_pending + e2 =~= self.pending@ + e);
            assert(trie::tokenize_spec(self.trie.dict(), self.trie.base(), h0 + e2)
                == self.dropped@ + self.stable_tokens@ + trie::tokenize_spec(
                self.trie.dict(),
                self.trie.base(),
                old_pending + e2,
            ));
        }
    }

    /// Fixes the ids of the pending bytes that no later byte can change, and
    /// lets go of the oldest fixed ids beyond `max_tokens`.
    fn resolve_stable(&mut self)
        requires
            old(self).wf(),
        ensures
            final(self).wf(),
            final(self).history() == old(self).history(),
            final(self).max_tokens() == old(self).max_tokens(),
            final(self).dict() == old(self).dict(),
            final(self).base() == old(self).base(),
            final(self).pending() == old(self).pending().subrange(
                settle_point(old(self).dict(), old(self).base(), old(self).pending(), 0),
                old(self).pending().len() as int,
            ),
            final(self).dropped() + final(self).stable() == old(self).dropped() + old(self).stable()
                + settled_ids(old(self).dict(), old(self).base(), old(self).pending(), 0),
            final(self).stable().len() as int == if old(self).stable().len() + settled_ids(
                old(self).dict(),
                old(self).base(),
                old(self).pending(),
                0,
            ).len() > old(self).max_tokens() {
                old(self).max_tokens() as int
            } else {
                (old(self).stable().len() + settled_ids(
                    old(self).dict(),
                    old(self).base(),
                    old(self).pending(),
                    0,
                ).len()) as int
            },
    {
        let ghost p0 = self.pending@;
        let ghost s0 = self.stable_tokens@;
        let ghost dict = self.trie.dict();
        let ghost base = self.trie.base();
        let ghost mut fixed: Seq<u32> = Seq::empty();
        let mut pos: usize = 0;
        let mut open = false;
        proof {
            assert forall|e: Seq<u8>|
                #[trigger] trie::tokenize_spec(dict, base, p0 + e) == fixed + trie::tokenize_from(
                    dict,
                    base,
                    p0 + e,
                    0,
                ) by {
                assert(fixed + trie::tokenize_from(dict, base, p0 + e, 0) =~= trie::tokenize_from(
                    dict,
                    base,
                    p0 + e,
                    0,
                ));
            }
            self.trie.lemma_wf_facts();
        }
        while pos < self.pending.len() && !open
            invariant
                self.trie.wf(),
                dict == self.trie.dict(),
                base == self.trie.base(),
                base <= 4294967295 - 256,
                self.pending@ == p0,
                self.history@ == old(self).history@,
                self.dropped@ == old(self).dropped@,
                self.trie == old(self).trie,
                self.max_tokens == old(self).max_tokens,
                0 <= pos <= p0.len(),
                self.stable_tokens@ == s0 + fixed,
                forall|e: Seq<u8>|
                    #[trigger] trie::tokenize_spec(dict, base, p0 + e) == fixed
                        + trie::tokenize_from(dict, base, p0 + e, pos as int),
                settle_point(dict, base, p0, 0) == if open {
                    pos as int
                } else {
                    settle_point(dict, base, p0, pos as int)
                },
                settled_ids(dict, base, p0, 0) == fixed + if open {
                    Seq::<u32>::empty()
                } else {
                    settled_ids(dict, base, p0, pos as int)
                },
            decreases p0.len() - pos + (if open { 0int } else { 1int }),
        {
            let (best_id, best_len, open_end) = self.trie.walk(&self.pending, pos);
            if open_end {
                open = true;
            } else {
                let id: u32 = if best_id == NONE {
                    self.trie.byte_fallback_base_of() + self.pending[pos] as u32
                } else {
                    best_id
                };
                self.stable_tokens.push(id);
                let step: usize = if best_id == NONE { 1 } else { best_len };
                proof {
                    lemma_commit(dict, base, p0, fixed, pos as int, id, step as int);
                    fixed = fixed.push(id);
                }
                pos += step;
            }
        }
        let rest = self.pending.split_off(pos);
        self.pending = rest;
        proof {
            lemma_finish(dict, base, self.history@, self.dropped@, s0, fixed, p0, pos as int);
        }
        if self.stable_tokens.len() > self.max_tokens {
            let remove = self.stable_tokens.len() - self.max_tokens;
            let ghost all = self.stable_tokens@;
            let kept = self.stable_tokens.split_off(remove);
            let ghost gone = self.stable_tokens@;
            self.stable_tokens = kept;
            proof {
                let d0 = self.dropped@;
                self.dropped@ = d0 + gone;
                assert(all =~= gone + self.stable_tokens@);
                assert forall|e: Seq<u8>|
                    #[trigger] trie::tokenize_spec(dict, base, self.history@ + e) == self.dropped@
                        + self.stable_tokens@ + trie::tokenize_spec(dict, base, self.pending@ + e) by {
                    assert(trie::tokenize_spec(dict, base, self.history@ + e) == d0 + all
                        + trie::tokenize_spec(dict, base, self.pending@ + e));
                    assert(d0 + all =~= self.dropped@ + self.stable_tokens@);
                }
            }
        }
    }

    /// The fixed ids and the ids of the pending bytes, widened, as a window of
    /// `context_len` ids left-padded with `pad_id`.
    pub fn current_ids(&self, context_len: usize, pad_id: usize) -> (r: Vec<usize>)
        requires
            self.wf(),
        ensures
            r@ == context_window(
                widen(self.stable() + trie::tokenize_spec(self.dict(), self.base(), self.pending())),
                context_len as int,
                pad_id,
            ),
            context_len <= self.max_tokens() ==> r@ == context_window(
                widen(trie::tokenize_spec(self.dict(), self.base(), self.history())),
                context_len as int,
                pad_id,
            ),
    {
        proof {
            self.lemma_agrees_with_batch();
            let w = self.stable() + trie::tokenize_spec(self.dict(), self.base(), self.pending());
            let all = trie::tokenize_spec(self.dict(), self.base(), self.history());
            assert(all == self.dropped() + w);
            assert(widen(self.dropped() + w) =~= widen(self.dropped()) + widen(w));
            if context_len <= self.max_tokens() && self.dropped().len() > 0 {
                lemma_window_suffix(widen(self.dropped()), widen(w), context_len as int, pad_id);
            } else if self.dropped().len() == 0 {
                assert(self.dropped() + w =~= w);
            }
        }
        let pending_ids = self.trie.tokenize_bytes(&self.pending);
        let ghost all = self.stable_tokens@ + pending_ids@;
        let mut ids: Vec<usize> = Vec::new();
        let mut i: usize = 0;
        while i < self.stable_tokens.len()
            invariant
                0 <= i <= self.stable_tokens@.len(),
                ids@ == widen(self.stable_tokens@.subrange(0, i as int)),
            decreases self.stable_tokens.len() - i,
        {
            ids.push(self.stable_tokens[i] as usize);
            i += 1;
            assert(ids@ =~= widen(self.stable_tokens@.subrange(0, i as int)));
        }
        let mut k: usize = 0;
        while k < pending_ids.len()
            invariant
                0 <= k <= pending_ids@.len(),
                ids@ == widen(self.stable_tokens@ + pending_ids@.subrange(0, k as int)),
            decreases pending_ids.len() - k,
        {
            ids.push(pending_ids[k] as usize);
            k += 1;
            assert(ids@ =~= widen(self.stable_tokens@ + pending_ids@.subrange(0, k as int)));
        }
        proof {
            assert(self.stable_tokens@.subrange(0, i as int) =~= self.stable_tokens@);
            assert(pending_ids@.subrange(0, k as int) =~= pending_ids@);
        }
        let n = ids.len();
        if n > context_len {
            let mut out: Vec<usize> = Vec::with_capacity(context_len);
            let start = n - context_len;
            let mut j: usize = start;
            while j < n
                invariant
                    n == ids@.len(),
                    start <= j <= n,
                    out@ == ids@.subrange(start as int, j as int),
                decreases n - j,
            {
                out.push(ids[j]);
                j += 1;
                assert(out@ =~= ids@.subrange(start as int, j as int));
            }
            out
        } else {
            let mut out: Vec<usize> = Vec::with_capacity(context_len);
            let mut j: usize = 0;
            while j < context_len - n
                invariant
                    n <= context_len,
                    0 <= j <= context_len - n,
                    out@ == Seq::new(j as nat, |x: int| pad_id),
                decreases context_len - n - j,
            {
                out.push(pad_id);
                j += 1;
                assert(out@ =~= Seq::new(j as nat, |x: int| pad_id));
            }
            let mut m: usize = 0;
            while m < n
                invariant
                    n == ids@.len(),
                    n <= context_len,
                    0 <= m <= n,
                    out@ == Seq::new((context_len - n) as nat, |x: int| pad_id) + ids@.subrange(
                        0,
                        m as int,
                    ),
                decreases n - m,
            {
                out.push(ids[m]);
                m += 1;
                assert(out@ =~= Seq::new((context_len - n) as nat, |x: int| pad_id)
                    + ids@.subrange(0, m as int));
            }
            assert(ids@.subrange(0, n as int) =~= ids@);
            out
        }
    }
}

} // verus!
