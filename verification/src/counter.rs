//! The counter workload: a grow-only counter sharded per node over an
//! external sequentially-consistent key-value service. Each node applies
//! its deltas to its own key by a read-then-compare-and-swap loop, and a
//! read fans out over every node's key and sums the values.
//!
//! The embedding program owns the waiting (requests to the service are
//! answered asynchronously); this module owns every decision: which
//! request to send next, how a response moves the add flow forward, how
//! service responses are matched to outstanding requests, and what the
//! fanned-in read values sum to.

use crate::{Body, Init, Message};
use vstd::prelude::*;
use vstd::string::StrSliceExecFns;

verus! {

/// The payload namespace between clients and a counter node.
#[derive(Debug, Clone)]
pub enum CounterPayload {
    Add { delta: usize },
    AddOk,
    Read,
    ReadOk { value: usize },
}

/// The payload namespace between a counter node and the key-value
/// service.
#[derive(Debug, Clone)]
pub enum KvPayload {
    Read { key: String },
    ReadOk { value: usize },
    Cas { key: String, from: usize, to: usize },
    CasOk,
    Write { key: String, value: usize },
    WriteOk,
    Error { code: u32, text: String },
}

/// The name the key-value service answers to.
pub open spec fn kv_service_name() -> Seq<char> {
    "seq-kv"@
}

/// Whether a service payload is a response (rather than an echoed
/// request).
pub open spec fn kv_is_response(p: KvPayload) -> bool {
    match p {
        KvPayload::ReadOk { .. } => true,
        KvPayload::CasOk => true,
        KvPayload::WriteOk => true,
        KvPayload::Error { .. } => true,
        _ => false,
    }
}

// ---------------------------------------------------------------------
// Substring search (for the service's "does not exist" error text)
// ---------------------------------------------------------------------
/// Whether `pat` occurs in `hay` starting at position `i`.
pub open spec fn matches_at(hay: Seq<char>, pat: Seq<char>, i: int) -> bool {
    0 <= i && i + pat.len() <= hay.len() && hay.subrange(i, i + pat.len()) == pat
}

/// Whether `pat` occurs anywhere in `hay`.
pub open spec fn contains_seq(hay: Seq<char>, pat: Seq<char>) -> bool {
    exists|i: int| matches_at(hay, pat, i)
}

/// Substring search, character by character.
pub fn str_contains(hay: &str, pat: &str) -> (r: bool)
    ensures
        r == contains_seq(hay@, pat@),
{
    let h = hay.unicode_len();
    let p = pat.unicode_len();
    if p > h {
        proof {
            assert forall|i: int| !matches_at(hay@, pat@, i) by {}
        }
        return false;
    }
    if p == 0 {
        proof {
            assert(hay@.subrange(0, 0) =~= pat@);
            assert(matches_at(hay@, pat@, 0));
        }
        return true;
    }
    let mut i: usize = 0;
    while i <= h - p
        invariant
            0 <= i <= h - p + 1,
            0 < p <= h,
            h == hay@.len(),
            p == pat@.len(),
            forall|k: int| 0 <= k < i ==> !matches_at(hay@, pat@, k),
        decreases h - p - i + 1,
    {
        let mut j: usize = 0;
        let mut ok = true;
        while j < p && ok
            invariant
                0 <= j <= p,
                i + p <= h,
                h == hay@.len(),
                p == pat@.len(),
                ok ==> forall|l: int| 0 <= l < j ==> hay@[i + l] == pat@[l],
                !ok ==> !matches_at(hay@, pat@, i as int),
            decreases p - j + (if ok {
                1int
            } else {
                0int
            }),
        {
            if hay.get_char(i + j) != pat.get_char(j) {
                proof {
                    assert(hay@.subrange(i as int, i + pat@.len())[j as int] == hay@[i + j]);
                }
                ok = false;
            } else {
                j = j + 1;
            }
        }
        if ok {
            proof {
                assert(hay@.subrange(i as int, i + pat@.len()) =~= pat@);
                assert(matches_at(hay@, pat@, i as int));
            }
            return true;
        }
        i = i + 1;
    }
    proof {
        assert forall|k: int| !matches_at(hay@, pat@, k) by {
            if 0 <= k <= h - p {
                assert(!matches_at(hay@, pat@, k));
            }
        }
    }
    false
}

/// Whether the service's error text reports an absent key.
pub open spec fn missing_key_text(t: Seq<char>) -> bool {
    contains_seq(t, "does not exist"@)
}

/// Whether an error from the key-value service means the key is absent.
pub fn is_missing_key_error(text: &str) -> (r: bool)
    ensures
        r == missing_key_text(text@),
{
    str_contains(text, "does not exist")
}

// ---------------------------------------------------------------------
// Outstanding requests
// ---------------------------------------------------------------------
/// The sequence numbers of requests to the service that still await a
/// response. Each is tracked at most once; a response consumes its entry.
pub struct PendingTable {
    pub ids: Vec<usize>,
}

impl View for PendingTable {
    type V = Set<usize>;

    open spec fn view(&self) -> Set<usize> {
        self.ids@.to_set()
    }
}

impl PendingTable {
    pub open spec fn wf(self) -> bool {
        forall|i: int, j: int| 0 <= i < j < self.ids@.len() ==> self.ids@[i] != self.ids@[j]
    }

    /// Every tracked sequence number is below `bound`.
    pub open spec fn all_below(self, bound: usize) -> bool {
        forall|i: int| 0 <= i < self.ids@.len() ==> self.ids@[i] < bound
    }

    pub fn new() -> (r: Self)
        ensures
            r.wf(),
            r@ =~= Set::<usize>::empty(),
            r.all_below(0),
    {
        PendingTable { ids: Vec::new() }
    }

    /// Track a fresh request.
    pub fn register(&mut self, id: usize)
        requires
            old(self).wf(),
            !old(self)@.contains(id),
        ensures
            final(self).wf(),
            final(self)@ =~= old(self)@.insert(id),
            forall|b: usize| old(self).all_below(b) && id < b ==> final(self).all_below(b),
    {
        let ghost before = self.ids@;
        self.ids.push(id);
        proof {
            before.lemma_push_to_set_commute(id);
            assert(self.ids@ =~= before.push(id));
        }
    }

    /// Consume the entry for `id`, reporting whether it was tracked. A
    /// response with no matching entry changes nothing (the entry was
    /// already consumed, or never existed).
    pub fn take(&mut self, id: usize) -> (r: bool)
        requires
            old(self).wf(),
        ensures
            final(self).wf(),
            r == old(self)@.contains(id),
            final(self)@ =~= old(self)@.remove(id),
            forall|b: usize| old(self).all_below(b) ==> final(self).all_below(b),
    {
        let n = self.ids.len();
        let mut i: usize = 0;
        while i < n
            invariant
                0 <= i <= n,
                n == self.ids@.len(),
                *self == *old(self),
                self.wf(),
                forall|k: int| 0 <= k < i ==> self.ids@[k] != id,
            decreases n - i,
        {
            if self.ids[i] == id {
                let ghost before = self.ids@;
                self.ids.remove(i);
                proof {
                    assert(before.contains(id));
                    assert(self.ids@ =~= before.remove(i as int));
                    assert forall|a: int, b: int|
                        0 <= a < b < self.ids@.len() implies self.ids@[a] != self.ids@[b] by {
                        if b < i {
                        } else if a < i {
                            assert(self.ids@[b] == before[b + 1]);
                        } else {
                            assert(self.ids@[a] == before[a + 1]);
                            assert(self.ids@[b] == before[b + 1]);
                        }
                    }
                    assert(self.ids@.to_set() =~= before.to_set().remove(id)) by {
                        assert forall|v: usize|
                            self.ids@.to_set().contains(v) implies before.to_set().remove(
                            id,
                        ).contains(v) by {
                            let k = choose|k: int|
                                0 <= k < self.ids@.len() && self.ids@[k] == v;
                            if k < i {
                                assert(before[k] == v);
                            } else {
                                assert(before[k + 1] == v);
                            }
                            assert(before.contains(v));
                            if v == id {
                                if k < i {
                                    assert(before[k] == id && before[i as int] == id);
                                    assert(false);
                                } else {
                                    assert(before[k + 1] == id && before[i as int] == id);
                                    assert(false);
                                }
                            }
                        }
                        assert forall|v: usize|
                            before.to_set().remove(id).contains(v) implies self.ids@.to_set()
                            .contains(v) by {
                            let k = choose|k: int| 0 <= k < before.len() && before[k] == v;
                            if k < i {
                                assert(self.ids@[k] == v);
                            } else if k > i {
                                assert(self.ids@[k - 1] == v);
                            }
                            assert(self.ids@.contains(v));
                        }
                    }
                }
                return true;
            }
            i = i + 1;
        }
        proof {
            assert(!self.ids@.contains(id));
            assert(self.ids@.to_set() =~= self.ids@.to_set().remove(id));
        }
        false
    }
}

// ---------------------------------------------------------------------
// The add flow: a state machine over service responses
// ---------------------------------------------------------------------
/// What the embedding program must do next for an add flow.
pub enum KvAction {
    /// Read this node's key.
    Read,
    /// Create this node's key with the given value.
    Write { value: usize },
    /// Swap this node's key from one value to another.
    Cas { from: usize, to: usize },
    /// The delta is applied; acknowledge the client.
    Finish,
}

/// Where an add flow stands: which kind of response it is waiting for.
pub enum AddPhase {
    AwaitRead,
    AwaitWrite,
    AwaitCas,
    Complete,
}

/// One client `add` in progress.
pub struct AddFlow {
    pub delta: usize,
    pub phase: AddPhase,
}

/// What the embedding program observed for the last request: the
/// service's value (successful reads answer the key's value; successful
/// writes and swaps answer zero), the service's error text, or nothing —
/// the request or its response was lost.
pub enum RpcOutcome {
    Value(usize),
    Failure(String),
    Lost,
}

impl AddFlow {
    /// The one response the flow cannot take: a read answering a value
    /// that the delta would push past the machine's range, leaving the
    /// swap target unrepresentable. The embedding program checks for it
    /// and treats it as fatal.
    pub open spec fn resume_in_range(self, outcome: RpcOutcome) -> bool {
        match outcome {
            RpcOutcome::Value(v) => !(self.phase is AwaitRead) || v + self.delta <= usize::MAX,
            _ => true,
        }
    }

    /// Start an add flow. A zero delta is complete on the spot; anything
    /// else first reads the node's key.
    pub fn begin(delta: usize) -> (r: (AddFlow, KvAction))
        ensures
            r.0.delta == delta,
            delta == 0 ==> r.0.phase is Complete && r.1 is Finish,
            delta != 0 ==> r.0.phase is AwaitRead && r.1 is Read,
    {
        if delta == 0 {
            (AddFlow { delta, phase: AddPhase::Complete }, KvAction::Finish)
        } else {
            (AddFlow { delta, phase: AddPhase::AwaitRead }, KvAction::Read)
        }
    }

    /// Move the flow forward on a response.
    ///
    /// A read answering `v` is followed by a swap from `v` to
    /// `v + delta`. A read failing because the key is absent is followed
    /// by a write creating the key at `delta`; any other failure retries
    /// the read. A successful write or swap completes the flow; a failed
    /// one (a swap lost the race, or anything was dropped) starts over
    /// with a fresh read. Retried forever, the flow completes as soon as
    /// one read-swap pair goes through unopposed.
    pub fn resume(self, outcome: RpcOutcome) -> (r: (AddFlow, KvAction))
        requires
            !(self.phase is Complete),
            self.resume_in_range(outcome),
        ensures
            r.0.delta == self.delta,
            match self.phase {
                AddPhase::AwaitRead => match outcome {
                    RpcOutcome::Value(v) => r.0.phase is AwaitCas && (r.1 matches KvAction::Cas {
                        from,
                        to,
                    } && from == v && to == v + self.delta),
                    RpcOutcome::Failure(t) => {
                        if missing_key_text(t@) {
                            r.0.phase is AwaitWrite && (r.1 matches KvAction::Write { value }
                                && value == self.delta)
                        } else {
                            r.0.phase is AwaitRead && r.1 is Read
                        }
                    },
                    RpcOutcome::Lost => r.0.phase is AwaitRead && r.1 is Read,
                },
                AddPhase::AwaitWrite => match outcome {
                    RpcOutcome::Value(_) => r.0.phase is Complete && r.1 is Finish,
                    _ => r.0.phase is AwaitRead && r.1 is Read,
                },
                AddPhase::AwaitCas => match outcome {
                    RpcOutcome::Value(_) => r.0.phase is Complete && r.1 is Finish,
                    _ => r.0.phase is AwaitRead && r.1 is Read,
                },
                AddPhase::Complete => false,
            },
    {
        let delta = self.delta;
        match self.phase {
            AddPhase::AwaitRead => match outcome {
                RpcOutcome::Value(v) => (
                    AddFlow { delta, phase: AddPhase::AwaitCas },
                    KvAction::Cas { from: v, to: v + delta },
                ),
                RpcOutcome::Failure(t) => {
                    if is_missing_key_error(t.as_str()) {
                        (AddFlow { delta, phase: AddPhase::AwaitWrite }, KvAction::Write {
                            value: delta,
                        })
                    } else {
                        (AddFlow { delta, phase: AddPhase::AwaitRead }, KvAction::Read)
                    }
                },
                RpcOutcome::Lost => (AddFlow { delta, phase: AddPhase::AwaitRead }, KvAction::Read),
            },
            AddPhase::AwaitWrite => match outcome {
                RpcOutcome::Value(_) => (
                    AddFlow { delta, phase: AddPhase::Complete },
                    KvAction::Finish,
                ),
                _ => (AddFlow { delta, phase: AddPhase::AwaitRead }, KvAction::Read),
            },
            AddPhase::AwaitCas => match outcome {
                RpcOutcome::Value(_) => (
                    AddFlow { delta, phase: AddPhase::Complete },
                    KvAction::Finish,
                ),
                _ => (AddFlow { delta, phase: AddPhase::AwaitRead }, KvAction::Read),
            },
            AddPhase::Complete => (AddFlow { delta, phase: AddPhase::Complete }, KvAction::Finish),
        }
    }
}

// ---------------------------------------------------------------------
// Read fan-in
// ---------------------------------------------------------------------
/// What one key of the fan-out read contributed: the key's value, or
/// nothing usable (an absent key, an error, or a lost response), which
/// counts as zero.
#[derive(Clone, Copy)]
pub enum ReadOutcome {
    Value(usize),
    Unavailable,
}

/// The sum of the fanned-in read values, absent keys counting as zero.
pub open spec fn outcomes_sum(s: Seq<ReadOutcome>) -> int
    decreases s.len(),
{
    if s.len() == 0 {
        0
    } else {
        outcomes_sum(s.drop_last()) + match s.last() {
            ReadOutcome::Value(v) => v as int,
            ReadOutcome::Unavailable => 0int,
        }
    }
}

pub proof fn lemma_outcomes_sum_mono(s: Seq<ReadOutcome>, i: int, j: int)
    requires
        0 <= i <= j <= s.len(),
    ensures
        outcomes_sum(s.subrange(0, i)) <= outcomes_sum(s.subrange(0, j)),
    decreases j - i,
{
    if i < j {
        lemma_outcomes_sum_mono(s, i, j - 1);
        assert(s.subrange(0, j).drop_last() =~= s.subrange(0, j - 1));
    }
}

/// Sum the fanned-in values; `None` only when the total cannot be
/// represented.
pub fn sum_read_values(outcomes: &Vec<ReadOutcome>) -> (r: Option<usize>)
    ensures
        match r {
            Some(total) => total == outcomes_sum(outcomes@),
            None => outcomes_sum(outcomes@) > usize::MAX,
        },
{
    let n = outcomes.len();
    let mut total: usize = 0;
    let mut i: usize = 0;
    while i < n
        invariant
            0 <= i <= n,
            n == outcomes@.len(),
            total == outcomes_sum(outcomes@.subrange(0, i as int)),
        decreases n - i,
    {
        proof {
            assert(outcomes@.subrange(0, i + 1).drop_last() =~= outcomes@.subrange(0, i as int));
        }
        match outcomes[i] {
            ReadOutcome::Value(v) => {
                if v <= usize::MAX - total {
                    total = total + v;
                } else {
                    proof {
                        assert(outcomes_sum(outcomes@.subrange(0, i + 1)) > usize::MAX);
                        lemma_outcomes_sum_mono(outcomes@, i + 1, n as int);
                        assert(outcomes@.subrange(0, n as int) =~= outcomes@);
                    }
                    return None;
                }
            },
            ReadOutcome::Unavailable => {},
        }
        i = i + 1;
    }
    proof {
        assert(outcomes@.subrange(0, n as int) =~= outcomes@);
    }
    Some(total)
}

// ---------------------------------------------------------------------
// The counter node
// ---------------------------------------------------------------------
/// The counter node: its name, the cluster's node list (the keys a read
/// fans out over), the sequence counter, and the outstanding requests to
/// the service.
pub struct CounterNode {
    pub node: String,
    pub node_ids: Vec<String>,
    pub id: usize,
    pub pending: PendingTable,
}

impl CounterNode {
    /// Outstanding requests are tracked at most once, and only under
    /// sequence numbers that were already assigned.
    pub open spec fn wf(self) -> bool {
        &&& self.pending.wf()
        &&& self.pending.all_below(self.id)
    }

    /// Set up the node and hand back the write that creates this node's
    /// key at zero, to be emitted before the event loop starts (so that
    /// every key exists by the time any read fans out). The write's
    /// response is not awaited. Sequence number 0 already went to the
    /// `init_ok`, so the write takes 1, keeping the node's sequence
    /// numbers strictly monotonic.
    pub fn from_init(init: Init) -> (r: (Self, Message<KvPayload>))
        ensures
            r.0.wf(),
            r.0.node == init.node_id,
            r.0.node_ids == init.node_ids,
            r.0.id == 2,
            r.0.pending@ =~= Set::<usize>::empty(),
            r.1.src == init.node_id,
            r.1.dst@ == kv_service_name(),
            r.1.body.id == Some(1usize),
            r.1.body.in_reply_to is None,
            r.1.body.payload matches KvPayload::Write { key, value } && key == init.node_id
                && value == 0,
    {
        let msg = Message {
            src: init.node_id.clone(),
            dst: kv_service(),
            body: Body {
                id: Some(1usize),
                in_reply_to: None,
                payload: KvPayload::Write { key: init.node_id.clone(), value: 0 },
            },
        };
        let node = CounterNode {
            node: init.node_id,
            node_ids: init.node_ids,
            id: 2,
            pending: PendingTable::new(),
        };
        (node, msg)
    }

    /// Build a read of `key`, tracking it as outstanding.
    pub fn begin_kv_read(&mut self, key: &String) -> (r: Message<KvPayload>)
        requires
            old(self).wf(),
            old(self).id < usize::MAX,
        ensures
            final(self).wf(),
            final(self).node == old(self).node,
            final(self).node_ids == old(self).node_ids,
            final(self).id == old(self).id + 1,
            final(self).pending@ =~= old(self).pending@.insert(old(self).id),
            r.src == old(self).node,
            r.dst@ == kv_service_name(),
            r.body.id == Some(old(self).id),
            r.body.in_reply_to is None,
            r.body.payload matches KvPayload::Read { key: k } && k == *key,
    {
        let msg_id = self.alloc_id();
        Message {
            src: self.node.clone(),
            dst: kv_service(),
            body: Body {
                id: Some(msg_id),
                in_reply_to: None,
                payload: KvPayload::Read { key: key.clone() },
            },
        }
    }

    /// Build a compare-and-swap on `key`, tracking it as outstanding.
    pub fn begin_kv_cas(&mut self, key: &String, from: usize, to: usize) -> (r: Message<KvPayload>)
        requires
            old(self).wf(),
            old(self).id < usize::MAX,
        ensures
            final(self).wf(),
            final(self).node == old(self).node,
            final(self).node_ids == old(self).node_ids,
            final(self).id == old(self).id + 1,
            final(self).pending@ =~= old(self).pending@.insert(old(self).id),
            r.src == old(self).node,
            r.dst@ == kv_service_name(),
            r.body.id == Some(old(self).id),
            r.body.in_reply_to is None,
            r.body.payload matches KvPayload::Cas { key: k, from: f, to: t } && k == *key && f
                == from && t == to,
    {
        let msg_id = self.alloc_id();
        Message {
            src: self.node.clone(),
            dst: kv_service(),
            body: Body {
                id: Some(msg_id),
                in_reply_to: None,
                payload: KvPayload::Cas { key: key.clone(), from, to },
            },
        }
    }

    /// Build a write of `key`, tracking it as outstanding.
    pub fn begin_kv_write(&mut self, key: &String, value: usize) -> (r: Message<KvPayload>)
        requires
            old(self).wf(),
            old(self).id < usize::MAX,
        ensures
            final(self).wf(),
            final(self).node == old(self).node,
            final(self).node_ids == old(self).node_ids,
            final(self).id == old(self).id + 1,
            final(self).pending@ =~= old(self).pending@.insert(old(self).id),
            r.src == old(self).node,
            r.dst@ == kv_service_name(),
            r.body.id == Some(old(self).id),
            r.body.in_reply_to is None,
            r.body.payload matches KvPayload::Write { key: k, value: v } && k == *key && v
                == value,
    {
        let msg_id = self.alloc_id();
        Message {
            src: self.node.clone(),
            dst: kv_service(),
            body: Body {
                id: Some(msg_id),
                in_reply_to: None,
                payload: KvPayload::Write { key: key.clone(), value },
            },
        }
    }

    /// Draw the next sequence number and track it as outstanding.
    fn alloc_id(&mut self) -> (r: usize)
        requires
            old(self).wf(),
            old(self).id < usize::MAX,
        ensures
            final(self).wf(),
            final(self).node == old(self).node,
            final(self).node_ids == old(self).node_ids,
            r == old(self).id,
            final(self).id == old(self).id + 1,
            final(self).pending@ =~= old(self).pending@.insert(old(self).id),
    {
        let msg_id = self.id;
        proof {
            if self.pending@.contains(msg_id) {
                let k = choose|k: int|
                    0 <= k < self.pending.ids@.len() && self.pending.ids@[k] == msg_id;
                assert(false);
            }
        }
        self.pending.register(msg_id);
        self.id = msg_id + 1;
        msg_id
    }

    /// Route one record from the service: consume the outstanding entry
    /// it answers and say what to signal the waiting flow — the value for
    /// a successful read (zero for a write or swap), or the error text.
    /// Records answering nothing outstanding, and echoed requests, are
    /// dropped.
    pub fn on_service_message(&mut self, msg: Message<KvPayload>) -> (r: Option<
        (usize, Result<usize, String>),
    >)
        requires
            old(self).wf(),
        ensures
            final(self).wf(),
            final(self).node == old(self).node,
            final(self).node_ids == old(self).node_ids,
            final(self).id == old(self).id,
            match r {
                Some((mid, sig)) => {
                    &&& msg.body.in_reply_to == Some(mid)
                    &&& old(self).pending@.contains(mid)
                    &&& final(self).pending@ =~= old(self).pending@.remove(mid)
                    &&& match msg.body.payload {
                        KvPayload::ReadOk { value } => sig == Ok::<usize, String>(value),
                        KvPayload::CasOk => sig == Ok::<usize, String>(0usize),
                        KvPayload::WriteOk => sig == Ok::<usize, String>(0usize),
                        KvPayload::Error { code, text } => sig == Err::<usize, String>(text),
                        _ => false,
                    }
                },
                None => {
                    &&& final(self).pending@ =~= old(self).pending@
                    &&& (kv_is_response(msg.body.payload) && (msg.body.in_reply_to matches Some(
                        mid,
                    ) && old(self).pending@.contains(mid))) == false
                },
            },
    {
        match msg.body.payload {
            KvPayload::ReadOk { value } => match msg.body.in_reply_to {
                Some(mid) => {
                    if self.pending.take(mid) {
                        Some((mid, Ok(value)))
                    } else {
                        None
                    }
                },
                None => None,
            },
            KvPayload::CasOk => match msg.body.in_reply_to {
                Some(mid) => {
                    if self.pending.take(mid) {
                        Some((mid, Ok(0)))
                    } else {
                        None
                    }
                },
                None => None,
            },
            KvPayload::WriteOk => match msg.body.in_reply_to {
                Some(mid) => {
                    if self.pending.take(mid) {
                        Some((mid, Ok(0)))
                    } else {
                        None
                    }
                },
                None => None,
            },
            KvPayload::Error { code: _, text } => match msg.body.in_reply_to {
                Some(mid) => {
                    if self.pending.take(mid) {
                        Some((mid, Err(text)))
                    } else {
                        None
                    }
                },
                None => None,
            },
            _ => None,
        }
    }

    /// Acknowledge a client `add`.
    pub fn reply_add_ok(&mut self, req: Message<CounterPayload>) -> (r: Message<CounterPayload>)
        requires
            old(self).wf(),
            old(self).id < usize::MAX,
        ensures
            final(self).wf(),
            final(self).node == old(self).node,
            final(self).node_ids == old(self).node_ids,
            final(self).pending@ == old(self).pending@,
            final(self).id == old(self).id + 1,
            crate::reply_envelope(r, req, old(self).id),
            r.body.payload is AddOk,
    {
        let reply = req.into_reply(&mut self.id);
        Message {
            src: reply.src,
            dst: reply.dst,
            body: Body {
                id: reply.body.id,
                in_reply_to: reply.body.in_reply_to,
                payload: CounterPayload::AddOk,
            },
        }
    }

    /// Answer a client `read` with the fanned-in sum.
    pub fn reply_read_ok(&mut self, req: Message<CounterPayload>, value: usize) -> (r: Message<
        CounterPayload,
    >)
        requires
            old(self).wf(),
            old(self).id < usize::MAX,
        ensures
            final(self).wf(),
            final(self).node == old(self).node,
            final(self).node_ids == old(self).node_ids,
            final(self).pending@ == old(self).pending@,
            final(self).id == old(self).id + 1,
            crate::reply_envelope(r, req, old(self).id),
            r.body.payload matches CounterPayload::ReadOk { value: v } && v == value,
    {
        let reply = req.into_reply(&mut self.id);
        Message {
            src: reply.src,
            dst: reply.dst,
            body: Body {
                id: reply.body.id,
                in_reply_to: reply.body.in_reply_to,
                payload: CounterPayload::ReadOk { value },
            },
        }
    }

    /// The settling delay in milliseconds before a read fans out: longer
    /// for a read that carries a sequence number, taken as a
    /// consistency-critical final read.
    pub fn read_settle_millis(req: &Message<CounterPayload>) -> (r: u64)
        ensures
            r == if req.body.id is Some {
                500u64
            } else {
                200u64
            },
    {
        match req.body.id {
            Some(_) => 500,
            None => 200,
        }
    }
}

/// The service's own name, as a value.
fn kv_service() -> (r: String)
    ensures
        r@ == kv_service_name(),
{
    "seq-kv".to_owned()
}

// ---------------------------------------------------------------------
// Convergence
// ---------------------------------------------------------------------
/// The sum of a batch of deltas.
pub open spec fn deltas_sum(s: Seq<usize>) -> int
    decreases s.len(),
{
    if s.len() == 0 {
        0
    } else {
        deltas_sum(s.drop_last()) + s.last()
    }
}

/// Counter convergence: every successful add applies exactly one swap
/// from `v` to `v + delta` on this node's key (the contract of
/// [`AddFlow::resume`]), and the key is sequentially consistent, so the
/// values it takes form a chain, each link adding one delta. Starting
/// from the zero that initialization writes, the key's value after any
/// number of acknowledged adds is exactly the sum of their deltas.
pub proof fn lemma_counter_convergence(vals: Seq<int>, deltas: Seq<usize>)
    requires
        vals.len() == deltas.len() + 1,
        vals[0] == 0,
        forall|i: int| 0 <= i < deltas.len() ==> vals[i + 1] == vals[i] + deltas[i],
    ensures
        vals.last() == deltas_sum(deltas),
    decreases deltas.len(),
{
    if deltas.len() > 0 {
        let n = deltas.len() as int;
        lemma_counter_convergence(vals.drop_last(), deltas.drop_last());
        assert(vals.drop_last()[0] == vals[0]);
        assert(vals.drop_last().last() == vals[n - 1]);
        assert(vals.last() == vals[n]);
    }
}

/// Read-my-write: the sum of a batch of deltas is at least any single
/// delta of the batch, so a key's value after an acknowledged add
/// reflects that add's delta.
pub proof fn lemma_sum_includes_each(deltas: Seq<usize>, j: int)
    requires
        0 <= j < deltas.len(),
    ensures
        deltas_sum(deltas) >= deltas[j],
    decreases deltas.len(),
{
    if j + 1 < deltas.len() {
        lemma_sum_includes_each(deltas.drop_last(), j);
        assert(deltas.drop_last()[j] == deltas[j]);
        assert(deltas_sum(deltas) >= deltas_sum(deltas.drop_last()));
    } else {
        assert(deltas_sum(deltas) == deltas_sum(deltas.drop_last()) + deltas[j]);
        lemma_deltas_sum_nonneg(deltas.drop_last());
    }
}

pub proof fn lemma_deltas_sum_nonneg(s: Seq<usize>)
    ensures
        deltas_sum(s) >= 0,
    decreases s.len(),
{
    if s.len() > 0 {
        lemma_deltas_sum_nonneg(s.drop_last());
    }
}

} // verus!
