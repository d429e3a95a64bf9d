//! Local simulation: all parties of one protocol run in this process, driven
//! round-robin, with their messages routed through per-party FIFO inboxes.

use std::collections::VecDeque;
use vstd::prelude::*;

use crate::driver::{Destination, DriveOutcome, MsgKind, PartyDriver};

verus! {

/// A placement of a message in one party's inbox; the message itself is kept
/// once in the mailboxes' store, at `slot`.
#[derive(Clone, Copy, Debug)]
pub struct Posted {
    pub id: u64,
    pub sender: u16,
    pub kind: MsgKind,
    pub slot: usize,
}

/// A placement as its receiver sees it.
pub struct Letter<M> {
    pub id: u64,
    pub sender: u16,
    pub kind: MsgKind,
    pub msg: M,
}

/// Whether party `j` is a receiver of a message that party `from` sent to `dest`.
pub open spec fn receives(from: int, dest: Destination, j: int) -> bool {
    match dest {
        Destination::AllParties => j != from,
        Destination::OneParty(p) => j == p,
    }
}

/// The id that the placement for party `j` gets, where `first` is the first
/// id not yet used: a broadcast numbers its receivers in ascending order.
pub open spec fn placement_id(first: u64, from: int, dest: Destination, j: int) -> int {
    match dest {
        Destination::AllParties => first + if j < from { j } else { j - 1 },
        Destination::OneParty(_) => first as int,
    }
}

/// What a message from `from` to `dest` adds to party `j`'s inbox.
pub open spec fn placed<M>(first: u64, from: int, dest: Destination, msg: M, j: int) -> Seq<Letter<M>> {
    if receives(from, dest, j) {
        seq![Letter { id: placement_id(first, from, dest, j) as u64, sender: from as u16, kind: dest.spec_kind(), msg }]
    } else {
        seq![]
    }
}

/// How many ids a message from `from` to `dest` uses among `n` parties.
pub open spec fn placements(n: int, dest: Destination) -> int {
    match dest {
        Destination::AllParties => n - 1,
        Destination::OneParty(_) => 1,
    }
}

/// One FIFO inbox per party, and the counter that gives every placement its id.
pub struct Mailboxes<M> {
    messages: Vec<M>,
    inboxes: Vec<VecDeque<Posted>>,
    next_id: u64,
}

impl<M> Mailboxes<M> {
    pub closed spec fn wf(&self) -> bool {
        forall|j: int, k: int|
            0 <= j < self.inboxes@.len() && 0 <= k < self.inboxes@[j]@.len()
                ==> (#[trigger] self.inboxes@[j]@[k]).slot < self.messages@.len()
    }

    /// Number of inboxes.
    pub closed spec fn parties(&self) -> nat {
        self.inboxes@.len()
    }

    /// The first id not yet given to a placement.
    pub closed spec fn first_free_id(&self) -> u64 {
        self.next_id
    }

    /// Whether a placement refers to a stored message.
    pub closed spec fn holds(&self, p: Posted) -> bool {
        p.slot < self.messages@.len()
    }

    pub closed spec fn letter(&self, p: Posted) -> Letter<M> {
        Letter { id: p.id, sender: p.sender, kind: p.kind, msg: self.messages@[p.slot as int] }
    }

    /// What party `j` has yet to receive, oldest first.
    pub closed spec fn queue(&self, j: int) -> Seq<Letter<M>> {
        self.inboxes@[j]@.map_values(|p: Posted| self.letter(p))
    }

    /// `n` empty inboxes; the first id is zero.
    pub fn new(n: usize) -> (r: Self)
        ensures
            r.wf(),
            r.parties() == n,
            r.first_free_id() == 0,
            forall|j: int| 0 <= j < n ==> (#[trigger] r.queue(j)).len() == 0,
    {
        let mut inboxes: Vec<VecDeque<Posted>> = Vec::new();
        let mut j: usize = 0;
        while j < n
            invariant
                j <= n,
                inboxes@.len() == j,
                forall|k: int| 0 <= k < j ==> (#[trigger] inboxes@[k])@.len() == 0,
            decreases n - j,
        {
            inboxes.push(VecDeque::new());
            j += 1;
        }
        let r = Mailboxes { messages: Vec::new(), inboxes, next_id: 0 };
        assert forall|k: int| 0 <= k < n implies (#[trigger] r.queue(k)).len() == 0 by {}
        r
    }

    pub fn first_free(&self) -> (r: u64)
        ensures
            r == self.first_free_id(),
    {
        self.next_id
    }

    pub fn len(&self) -> (r: usize)
        ensures
            r == self.parties(),
    {
        self.inboxes.len()
    }

    proof fn lemma_store_grows(&self, other: &Self)
        requires
            self.wf(),
            other.inboxes@ == self.inboxes@,
            self.messages@.len() <= other.messages@.len(),
            forall|s: int| 0 <= s < self.messages@.len() ==> other.messages@[s] == self.messages@[s],
        ensures
            forall|j: int| 0 <= j < self.parties() ==> #[trigger] other.queue(j) == self.queue(j),
    {
        assert forall|j: int| 0 <= j < self.parties() implies #[trigger] other.queue(j) == self.queue(j) by {
            assert(other.queue(j) =~= self.queue(j));
        }
    }

    /// Appends one placement of the message at `slot` to party `j`'s inbox.
    fn place(&mut self, j: usize, sender: u16, kind: MsgKind, slot: usize)
        requires
            old(self).wf(),
            j < old(self).parties(),
            slot < old(self).messages@.len(),
            old(self).next_id < u64::MAX,
        ensures
            final(self).wf(),
            final(self).parties() == old(self).parties(),
            final(self).messages@ == old(self).messages@,
            final(self).next_id == old(self).next_id + 1,
            final(self).queue(j as int) == old(self).queue(j as int).push(
                Letter { id: old(self).next_id, sender, kind, msg: old(self).messages@[slot as int] },
            ),
            forall|k: int| 0 <= k < old(self).parties() && k != j ==> #[trigger] final(self).queue(k) == old(self).queue(k),
    {
        let p = Posted { id: self.next_id, sender, kind, slot };
        self.inboxes[j].push_back(p);
        self.next_id = self.next_id + 1;
        assert(self.queue(j as int) =~= old(self).queue(j as int).push(self.letter(p)));
        assert forall|k: int| 0 <= k < old(self).parties() && k != j implies #[trigger] self.queue(k) == old(self).queue(k) by {
            assert(self.queue(k) =~= old(self).queue(k));
        }
    }

    /// Routes a message from party `from`: a broadcast goes to every other
    /// party, a direct message to the one named; each placement takes the
    /// next id.
    pub fn post(&mut self, from: usize, dest: Destination, msg: M)
        requires
            old(self).wf(),
            from < old(self).parties() <= u16::MAX,
            dest matches Destination::OneParty(p) ==> p < old(self).parties(),
            old(self).first_free_id() + old(self).parties() <= u64::MAX,
        ensures
            final(self).wf(),
            final(self).parties() == old(self).parties(),
            final(self).first_free_id() == old(self).first_free_id() + placements(old(self).parties() as int, dest),
            forall|j: int| 0 <= j < old(self).parties() ==> #[trigger] final(self).queue(j)
                == old(self).queue(j) + placed(old(self).first_free_id(), from as int, dest, msg, j),
    {
        let ghost start = *self;
        let n = self.inboxes.len();
        let slot = self.messages.len();
        self.messages.push(msg);
        proof {
            start.lemma_store_grows(self);
        }
        let kind = dest.kind();
        match dest {
            Destination::AllParties => {
                let mut j: usize = 0;
                while j < n
                    invariant
                        self.wf(),
                        n == self.parties() == start.parties(),
                        from < n <= u16::MAX,
                        start.first_free_id() + n <= u64::MAX,
                        slot == start.messages@.len() < self.messages@.len(),
                        self.messages@[slot as int] == msg,
                        dest == Destination::AllParties,
                        kind == MsgKind::Broadcast,
                        j <= n,
                        self.next_id == start.next_id + if j <= from { j as int } else { j - 1 },
                        forall|k: int| 0 <= k < j ==> #[trigger] self.queue(k)
                            == start.queue(k) + placed(start.first_free_id(), from as int, dest, msg, k),
                        forall|k: int| j <= k < n ==> #[trigger] self.queue(k) == start.queue(k),
                    decreases n - j,
                {
                    if j != from {
                        self.place(j, from as u16, kind, slot);
                        assert(self.queue(j as int) =~= start.queue(j as int) + placed(
                            start.first_free_id(),
                            from as int,
                            dest,
                            msg,
                            j as int,
                        ));
                    } else {
                        assert(self.queue(j as int) =~= start.queue(j as int) + placed(
                            start.first_free_id(),
                            from as int,
                            dest,
                            msg,
                            j as int,
                        ));
                    }
                    j += 1;
                }
            },
            Destination::OneParty(p) => {
                let ghost mid = *self;
                self.place(p as usize, from as u16, kind, slot);
                assert forall|k: int| 0 <= k < n implies #[trigger] self.queue(k)
                    == start.queue(k) + placed(start.first_free_id(), from as int, dest, msg, k) by {
                    assert(mid.queue(k) == start.queue(k));
                    if k == p {
                        assert(self.queue(k) =~= start.queue(k) + placed(start.first_free_id(), from as int, dest, msg, k));
                    } else {
                        assert(self.queue(k) =~= start.queue(k) + placed(start.first_free_id(), from as int, dest, msg, k));
                    }
                }
            },
        }
    }
    /// Removes the oldest placement in party `j`'s inbox, if any.
    pub fn take(&mut self, j: usize) -> (r: Option<Posted>)
        requires
            old(self).wf(),
            j < old(self).parties(),
        ensures
            final(self).wf(),
            final(self).parties() == old(self).parties(),
            final(self).first_free_id() == old(self).first_free_id(),
            old(self).queue(j as int).len() == 0 <==> r is None,
            r matches Some(p) ==> {
                &&& final(self).letter(p) == old(self).queue(j as int)[0]
                &&& final(self).holds(p)
            },
            r is Some ==> final(self).queue(j as int) == old(self).queue(j as int).drop_first(),
            r is None ==> final(self).queue(j as int) == old(self).queue(j as int),
            forall|k: int| 0 <= k < old(self).parties() && k != j ==> #[trigger] final(self).queue(k) == old(self).queue(k),
            forall|p: Posted| old(self).holds(p) ==> #[trigger] final(self).letter(p) == old(self).letter(p),
    {
        let r = self.inboxes[j].pop_front();
        proof {
            if r is Some {
                assert(self.queue(j as int) =~= old(self).queue(j as int).drop_first());
                assert(old(self).inboxes@[j as int]@[0] == r->Some_0);
            } else {
                assert(self.queue(j as int) =~= old(self).queue(j as int));
            }
            assert forall|k: int| 0 <= k < old(self).parties() && k != j implies #[trigger] self.queue(k) == old(self).queue(k) by {
                assert(self.queue(k) =~= old(self).queue(k));
            }
            assert forall|a: int, b: int|
                0 <= a < self.inboxes@.len() && 0 <= b < self.inboxes@[a]@.len()
                    implies (#[trigger] self.inboxes@[a]@[b]).slot < self.messages@.len() by {
                if a == j {
                    assert(self.inboxes@[a]@[b] == old(self).inboxes@[a]@[b + 1]);
                }
            }
        }
        r
    }

    /// The stored message that a placement refers to.
    pub fn message(&self, p: Posted) -> (r: &M)
        requires
            self.holds(p),
        ensures
            *r == self.letter(p).msg,
    {
        &self.messages[p.slot]
    }
}

/// Why a simulation stopped without outputs.
pub enum SimError {
    /// A party's state machine rejected a delivered message.
    ReceiveFailed { party: usize },
    /// A party's state machine reported an irrecoverable error.
    ProtocolError { party: usize, reason: String },
    /// A party addressed a direct message to a position outside the group.
    UnknownRecipient { party: usize, recipient: u16 },
    /// Every message id has been given out.
    IdsExhausted,
    /// The sweep cap was reached before every party finished.
    DidNotComplete { finished: usize, total: usize },
    /// A party has no output.
    MissingOutput { party: usize },
}

/// The most round-robin sweeps a simulation makes over its parties.
pub const MAX_SWEEPS: u64 = 100_000;

/// The most steps one party takes in one turn before the next party's turn.
pub const MAX_TURN_STEPS: u64 = 100_000;

/// How many slots hold an output.
pub open spec fn finished_count<O>(s: Seq<Option<O>>) -> nat
    decreases s.len(),
{
    if s.len() == 0 {
        0
    } else {
        finished_count(s.drop_last()) + if s.last() is Some { 1nat } else { 0nat }
    }
}

proof fn lemma_finished_count_bound<O>(s: Seq<Option<O>>)
    ensures
        finished_count(s) <= s.len(),
    decreases s.len(),
{
    if s.len() > 0 {
        lemma_finished_count_bound(s.drop_last());
    }
}

proof fn lemma_finished_count_fill<O>(s: Seq<Option<O>>, i: int, o: O)
    requires
        0 <= i < s.len(),
        s[i] is None,
    ensures
        finished_count(s.update(i, Some(o))) == finished_count(s) + 1,
    decreases s.len(),
{
    let t = s.update(i, Some(o));
    if i == s.len() - 1 {
        assert(t.drop_last() =~= s.drop_last());
    } else {
        assert(t.drop_last() =~= s.drop_last().update(i, Some(o)));
        lemma_finished_count_fill(s.drop_last(), i, o);
    }
}

/// Takes the output out of every slot, in slot order.
pub fn collect_outputs<O>(slots: Vec<Option<O>>) -> (r: Result<Vec<O>, SimError>)
    ensures
        r is Ok <==> forall|i: int| 0 <= i < slots@.len() ==> (#[trigger] slots@[i]) is Some,
        r matches Ok(v) ==> v@.len() == slots@.len()
            && forall|i: int| 0 <= i < slots@.len() ==> #[trigger] v@[i] == slots@[i]->Some_0,
        r is Err ==> (r matches Err(SimError::MissingOutput { party }) && party < slots@.len()
            && slots@[party as int] is None
            && forall|i: int| 0 <= i < party ==> (#[trigger] slots@[i]) is Some),
{
    let ghost all = slots@;
    assert(all.len() == slots.len());
    let mut rest = slots;
    let mut out: Vec<O> = Vec::new();
    let mut i: usize = 0;
    while rest.len() > 0
        invariant
            all == slots@,
            all.len() <= usize::MAX,
            i <= all.len(),
            rest@ == all.subrange(i as int, all.len() as int),
            out@.len() == i,
            forall|k: int| 0 <= k < i ==> (#[trigger] all[k]) is Some && out@[k] == all[k]->Some_0,
        decreases rest@.len(),
    {
        let o = rest.remove(0);
        assert(o == all[i as int]);
        match o {
            Some(v) => out.push(v),
            None => {
                return Err(SimError::MissingOutput { party: i });
            },
        }
        i += 1;
    }
    Ok(out)
}

/// One step of a party as the simulation saw it.
pub enum Step<M, O> {
    /// The party sent a message; it was routed unless the step ended the run.
    Sent { dest: Destination, msg: M },
    /// The party waits for a message.
    Waiting,
    /// The party made internal progress.
    Yielded,
    /// The party finished with this output.
    Finished { output: O },
    /// The party failed with this reason.
    Failed { reason: String },
    /// The party sent a direct message to a position outside the group.
    Misaddressed { recipient: u16 },
    /// A waiting party was handed this letter.
    Delivered { letter: Letter<M> },
    /// A waiting party rejected this letter.
    Refused { letter: Letter<M> },
    /// The party sent a message that could not get ids.
    Dropped { dest: Destination, msg: M },
}

/// What a simulation did: each party's steps, the messages it routed in
/// order, and the party of each turn.
pub struct SimLog<M, O> {
    pub steps: Seq<Seq<Step<M, O>>>,
    pub sends: Seq<Route<M>>,
    pub turns: Seq<int>,
}

/// A direct message to a position outside a group of `n`.
pub open spec fn misaddressed(dest: Destination, n: int) -> bool {
    dest matches Destination::OneParty(p) && p >= n
}

/// The step recorded for what a drive returned, among `n` parties.
pub open spec fn step_of<M, O>(out: Result<DriveOutcome<M, O>, String>, n: int) -> Step<M, O> {
    match out {
        Err(reason) => Step::Failed { reason },
        Ok(DriveOutcome::SendMsg(o)) => match o.dest {
            Destination::OneParty(p) => if p >= n {
                Step::Misaddressed { recipient: p }
            } else {
                Step::Sent { dest: o.dest, msg: o.msg }
            },
            Destination::AllParties => Step::Sent { dest: o.dest, msg: o.msg },
        },
        Ok(DriveOutcome::NeedsInput) => Step::Waiting,
        Ok(DriveOutcome::Yielded) => Step::Yielded,
        Ok(DriveOutcome::Finished(output)) => Step::Finished { output },
    }
}

/// The output a party's steps end with, if they end with one.
pub open spec fn final_output<M, O>(log: Seq<Step<M, O>>) -> Option<O> {
    if log.len() > 0 {
        match log.last() {
            Step::Finished { output } => Some(output),
            _ => None,
        }
    } else {
        None
    }
}

/// Every party's output so far, by party.
pub open spec fn outputs_of<M, O>(steps: Seq<Seq<Step<M, O>>>) -> Seq<Option<O>> {
    steps.map_values(|log: Seq<Step<M, O>>| final_output(log))
}

/// A party's steps are well ordered: a letter is handed over only right after
/// the party said it waits, and nothing follows a finish.
#[verifier::opaque]
pub open spec fn orderly<M, O>(log: Seq<Step<M, O>>) -> bool {
    &&& forall|j: int|
        0 <= j < log.len() ==> ((#[trigger] log[j] is Delivered || log[j] is Refused) ==> j > 0 && log[j - 1] is Waiting)
    &&& forall|j: int| 0 <= j < log.len() - 1 ==> !(#[trigger] log[j] is Finished)
}

proof fn lemma_orderly_push<M, O>(log: Seq<Step<M, O>>, step: Step<M, O>)
    requires
        orderly(log),
        final_output(log) is None,
        (step is Delivered || step is Refused) ==> log.len() > 0 && log.last() is Waiting,
    ensures
        orderly(log.push(step)),
        log.is_prefix_of(log.push(step)),
{
    reveal(orderly);
    let l = log.push(step);
    assert forall|j: int| 0 <= j < l.len() - 1 implies !(#[trigger] l[j] is Finished) by {
        assert(l[j] == log[j]);
        if j == log.len() - 1 {
            assert(log[j] == log.last());
        }
    }
    assert forall|j: int|
        0 <= j < l.len() && (#[trigger] l[j] is Delivered || l[j] is Refused) implies j > 0 && l[j - 1] is Waiting by {
        if j < log.len() {
            assert(l[j] == log[j]);
            assert(l[j - 1] == log[j - 1]);
        } else {
            assert(l[j - 1] == log.last());
        }
    }
}

/// A message that a party sent and the simulation routed.
pub struct Route<M> {
    pub from: int,
    pub dest: Destination,
    pub msg: M,
}

/// How many ids the routed messages used, among `n` parties.
pub open spec fn ids_used<M>(sends: Seq<Route<M>>, n: int) -> int
    decreases sends.len(),
{
    if sends.len() == 0 {
        0
    } else {
        ids_used(sends.drop_last(), n) + placements(n, sends.last().dest)
    }
}

/// Every letter that the routed messages placed in party `j`'s inbox, in the
/// order of placement.
pub open spec fn routed_to<M>(sends: Seq<Route<M>>, n: int, j: int) -> Seq<Letter<M>>
    decreases sends.len(),
{
    if sends.len() == 0 {
        seq![]
    } else {
        let r = sends.last();
        routed_to(sends.drop_last(), n, j) + placed(ids_used(sends.drop_last(), n) as u64, r.from, r.dest, r.msg, j)
    }
}

/// The letters a party was handed, in order.
pub open spec fn letters_received<M, O>(log: Seq<Step<M, O>>) -> Seq<Letter<M>>
    decreases log.len(),
{
    if log.len() == 0 {
        seq![]
    } else {
        match log.last() {
            Step::Delivered { letter } => letters_received(log.drop_last()).push(letter),
            Step::Refused { letter } => letters_received(log.drop_last()).push(letter),
            _ => letters_received(log.drop_last()),
        }
    }
}

/// The messages a party's steps sent, in order.
pub open spec fn sent_by<M, O>(log: Seq<Step<M, O>>) -> Seq<(Destination, M)>
    decreases log.len(),
{
    if log.len() == 0 {
        seq![]
    } else {
        match log.last() {
            Step::Sent { dest, msg } => sent_by(log.drop_last()).push((dest, msg)),
            _ => sent_by(log.drop_last()),
        }
    }
}

/// The routed messages from party `i`, in order.
pub open spec fn sends_from<M>(sends: Seq<Route<M>>, i: int) -> Seq<(Destination, M)>
    decreases sends.len(),
{
    if sends.len() == 0 {
        seq![]
    } else if sends.last().from == i {
        sends_from(sends.drop_last(), i).push((sends.last().dest, sends.last().msg))
    } else {
        sends_from(sends.drop_last(), i)
    }
}

/// A step that ends the simulation with an error.
pub open spec fn is_fault<M, O>(s: Step<M, O>) -> bool {
    s is Failed || s is Refused || s is Misaddressed || s is Dropped
}

/// No step of a party ended the simulation.
pub open spec fn fault_free<M, O>(log: Seq<Step<M, O>>) -> bool {
    forall|k: int| 0 <= k < log.len() ==> !is_fault(#[trigger] log[k])
}

/// How many turns party `i` took.
pub open spec fn turns_of(turns: Seq<int>, i: int) -> nat
    decreases turns.len(),
{
    if turns.len() == 0 {
        0
    } else {
        turns_of(turns.drop_last(), i) + if turns.last() == i { 1nat } else { 0nat }
    }
}

/// The record and the mailboxes agree: every inbox holds what was routed to
/// it and its party has not yet been handed, and every party's sent
/// messages are the routed ones from it.
#[verifier::opaque]
pub open spec fn consistent<M, O>(log: SimLog<M, O>, mail: Mailboxes<M>, n: int) -> bool {
    &&& log.steps.len() == n == mail.parties()
    &&& mail.first_free_id() == ids_used(log.sends, n)
    &&& forall|j: int| 0 <= j < n ==> letters_received(#[trigger] log.steps[j]) + mail.queue(j) == routed_to(log.sends, n, j)
    &&& forall|i: int| 0 <= i < n ==> sent_by(#[trigger] log.steps[i]) == sends_from(log.sends, i)
    &&& forall|k: int| 0 <= k < log.sends.len() ==> 0 <= (#[trigger] log.sends[k]).from < n
}

/// The record after party `i` took `step`.
pub open spec fn with_step<M, O>(log: SimLog<M, O>, i: int, step: Step<M, O>) -> SimLog<M, O> {
    SimLog { steps: log.steps.update(i, log.steps[i].push(step)), ..log }
}

proof fn lemma_consistent_plain<M, O>(log: SimLog<M, O>, mail: Mailboxes<M>, n: int, i: int, step: Step<M, O>)
    requires
        consistent(log, mail, n),
        0 <= i < n,
        !(step is Sent || step is Delivered || step is Refused),
    ensures
        consistent(with_step(log, i, step), mail, n),
{
    reveal(consistent);
    let l2 = with_step(log, i, step);
    let s = log.steps[i].push(step);
    assert(s.drop_last() =~= log.steps[i]);
    assert(letters_received(s) == letters_received(log.steps[i]));
    assert(sent_by(s) == sent_by(log.steps[i]));
    assert forall|j: int| 0 <= j < n implies letters_received(#[trigger] l2.steps[j]) + mail.queue(j) == routed_to(l2.sends, n, j) by {
        if j == i {
            assert(l2.steps[j] == s);
        }
    }
    assert forall|k: int| 0 <= k < n implies sent_by(#[trigger] l2.steps[k]) == sends_from(l2.sends, k) by {
        if k == i {
            assert(l2.steps[k] == s);
        }
    }
}

proof fn lemma_consistent_take<M, O>(
    log: SimLog<M, O>,
    mail: Mailboxes<M>,
    mail2: Mailboxes<M>,
    n: int,
    i: int,
    step: Step<M, O>,
    letter: Letter<M>,
)
    requires
        consistent(log, mail, n),
        0 <= i < n,
        mail2.parties() == mail.parties(),
        mail2.first_free_id() == mail.first_free_id(),
        mail.queue(i).len() > 0,
        letter == mail.queue(i)[0],
        mail2.queue(i) == mail.queue(i).drop_first(),
        forall|k: int| 0 <= k < n && k != i ==> #[trigger] mail2.queue(k) == mail.queue(k),
        step == (Step::<M, O>::Delivered { letter }) || step == (Step::<M, O>::Refused { letter }),
    ensures
        consistent(with_step(log, i, step), mail2, n),
{
    reveal(consistent);
    let l2 = with_step(log, i, step);
    let s = log.steps[i].push(step);
    assert(s.drop_last() =~= log.steps[i]);
    assert(letters_received(s) == letters_received(log.steps[i]).push(letter));
    assert(sent_by(s) == sent_by(log.steps[i]));
    assert forall|j: int| 0 <= j < n implies letters_received(#[trigger] l2.steps[j]) + mail2.queue(j) == routed_to(l2.sends, n, j) by {
        if j == i {
            assert(l2.steps[j] == s);
            assert(letters_received(log.steps[i]).push(letter) + mail.queue(i).drop_first() =~= letters_received(
                log.steps[i],
            ) + mail.queue(i));
        }
    }
    assert forall|k: int| 0 <= k < n implies sent_by(#[trigger] l2.steps[k]) == sends_from(l2.sends, k) by {
        if k == i {
            assert(l2.steps[k] == s);
        }
    }
}

proof fn lemma_consistent_post<M, O>(
    log: SimLog<M, O>,
    mail: Mailboxes<M>,
    mail2: Mailboxes<M>,
    n: int,
    i: int,
    dest: Destination,
    msg: M,
)
    requires
        consistent(log, mail, n),
        0 <= i < n,
        mail2.parties() == mail.parties(),
        mail2.first_free_id() == mail.first_free_id() + placements(n, dest),
        forall|j: int| 0 <= j < n ==> #[trigger] mail2.queue(j) == mail.queue(j) + placed(
            mail.first_free_id(),
            i,
            dest,
            msg,
            j,
        ),
    ensures
        consistent(
            SimLog {
                steps: log.steps.update(i, log.steps[i].push(Step::Sent { dest, msg })),
                sends: log.sends.push(Route { from: i, dest, msg }),
                turns: log.turns,
            },
            mail2,
            n,
        ),
{
    reveal(consistent);
    let route = Route { from: i, dest, msg };
    let sends2 = log.sends.push(route);
    let l2 = SimLog {
        steps: log.steps.update(i, log.steps[i].push(Step::Sent { dest, msg })),
        sends: sends2,
        turns: log.turns,
    };
    let s = log.steps[i].push(Step::Sent { dest, msg });
    assert(s.drop_last() =~= log.steps[i]);
    assert(sends2.drop_last() =~= log.sends);
    assert(letters_received(s) == letters_received(log.steps[i]));
    assert(sent_by(s) == sent_by(log.steps[i]).push((dest, msg)));
    assert(ids_used(sends2, n) == ids_used(log.sends, n) + placements(n, dest));
    assert forall|j: int| 0 <= j < n implies letters_received(#[trigger] l2.steps[j]) + mail2.queue(j) == routed_to(l2.sends, n, j) by {
        if j == i {
            assert(l2.steps[j] == s);
        }
        assert(routed_to(sends2, n, j) == routed_to(log.sends, n, j) + placed(
            ids_used(log.sends, n) as u64,
            i,
            dest,
            msg,
            j,
        ));
        assert(letters_received(l2.steps[j]) + (mail.queue(j) + placed(mail.first_free_id(), i, dest, msg, j))
            =~= (letters_received(l2.steps[j]) + mail.queue(j)) + placed(mail.first_free_id(), i, dest, msg, j));
    }
    assert forall|k: int| 0 <= k < n implies sent_by(#[trigger] l2.steps[k]) == sends_from(l2.sends, k) by {
        if k == i {
            assert(l2.steps[k] == s);
        }
    }
    assert forall|k: int| 0 <= k < l2.sends.len() implies 0 <= (#[trigger] l2.sends[k]).from < n by {
        if k < log.sends.len() {
            assert(l2.sends[k] == log.sends[k]);
        }
    }
}

proof fn lemma_consistent_same_mail<M, O>(log: SimLog<M, O>, mail: Mailboxes<M>, mail2: Mailboxes<M>, n: int)
    requires
        consistent(log, mail, n),
        mail2.parties() == mail.parties(),
        mail2.first_free_id() == mail.first_free_id(),
        forall|k: int| 0 <= k < n ==> #[trigger] mail2.queue(k) == mail.queue(k),
    ensures
        consistent(log, mail2, n),
{
    reveal(consistent);
}

proof fn lemma_update_twice<T>(a: Seq<T>, b: Seq<T>, c: Seq<T>, i: int)
    requires
        0 <= i < a.len(),
        b == a.update(i, b[i]),
        c == b.update(i, c[i]),
    ensures
        c == a.update(i, c[i]),
{
    assert(c =~= a.update(i, c[i]));
}

proof fn lemma_turns_push(turns: Seq<int>, x: int)
    ensures
        forall|k: int| #[trigger] turns_of(turns.push(x), k) == turns_of(turns, k) + if x == k { 1nat } else { 0nat },
{
    assert(turns.push(x).drop_last() =~= turns);
}

/// Applies what one drive of party `i` returned: a message is routed, a
/// waiting party is marked as wanting a message, an output is handed back.
/// `Ok(None)` means the turn goes on.
fn apply_outcome<M, O>(out: Result<DriveOutcome<M, O>, String>, i: usize, mail: &mut Mailboxes<M>, wants: &mut bool) -> (r:
    Result<Option<O>, SimError>)
    requires
        old(mail).wf(),
        i < old(mail).parties() <= u16::MAX,
    ensures
        final(mail).wf(),
        final(mail).parties() == old(mail).parties(),
        out is Err ==> r == Err::<Option<O>, SimError>(SimError::ProtocolError { party: i, reason: out->Err_0 })
            && *final(mail) == *old(mail) && *final(wants) == *old(wants),
        out matches Ok(DriveOutcome::SendMsg(o)) ==> *final(wants) == *old(wants) && if misaddressed(
            o.dest,
            old(mail).parties() as int,
        ) {
            &&& r == Err::<Option<O>, SimError>(
                SimError::UnknownRecipient { party: i, recipient: o.dest->OneParty_0 },
            )
            &&& *final(mail) == *old(mail)
        } else if old(mail).first_free_id() + old(mail).parties() > u64::MAX {
            r == Err::<Option<O>, SimError>(SimError::IdsExhausted) && *final(mail) == *old(mail)
        } else {
            &&& r == Ok::<Option<O>, SimError>(None)
            &&& final(mail).first_free_id() == old(mail).first_free_id() + placements(
                old(mail).parties() as int,
                o.dest,
            )
            &&& forall|j: int| 0 <= j < old(mail).parties() ==> #[trigger] final(mail).queue(j)
                == old(mail).queue(j) + placed(old(mail).first_free_id(), i as int, o.dest, o.msg, j)
        },
        out matches Ok(DriveOutcome::NeedsInput) ==> r == Ok::<Option<O>, SimError>(None) && *final(wants)
            && *final(mail) == *old(mail),
        out matches Ok(DriveOutcome::Yielded) ==> r == Ok::<Option<O>, SimError>(None) && *final(wants)
            == *old(wants) && *final(mail) == *old(mail),
        out matches Ok(DriveOutcome::Finished(o)) ==> r == Ok::<Option<O>, SimError>(Some(o)) && *final(wants)
            == *old(wants) && *final(mail) == *old(mail),
{
    let n = mail.len();
    match out {
        Err(reason) => Err(SimError::ProtocolError { party: i, reason }),
        Ok(DriveOutcome::SendMsg(o)) => {
            if let Destination::OneParty(p) = o.dest {
                if p as usize >= n {
                    return Err(SimError::UnknownRecipient { party: i, recipient: p });
                }
            }
            if mail.first_free() > u64::MAX - n as u64 {
                return Err(SimError::IdsExhausted);
            }
            mail.post(i, o.dest, o.msg);
            Ok(None)
        },
        Ok(DriveOutcome::NeedsInput) => {
            *wants = true;
            Ok(None)
        },
        Ok(DriveOutcome::Finished(o)) => Ok(Some(o)),
        Ok(DriveOutcome::Yielded) => Ok(None),
    }
}

/// The facts a consistent record gives: each party was handed a prefix of
/// what was routed to it, in order, and each party's sent messages are the
/// routed ones from it.
proof fn lemma_consistent_facts<M, O>(log: SimLog<M, O>, mail: Mailboxes<M>, n: int)
    requires
        consistent(log, mail, n),
    ensures
        forall|j: int| 0 <= j < n ==> letters_received(#[trigger] log.steps[j]).is_prefix_of(routed_to(log.sends, n, j)),
        forall|i: int| 0 <= i < n ==> sent_by(#[trigger] log.steps[i]) == sends_from(log.sends, i),
        forall|k: int| 0 <= k < log.sends.len() ==> 0 <= (#[trigger] log.sends[k]).from < n,
{
    reveal(consistent);
    assert forall|j: int| 0 <= j < n implies letters_received(#[trigger] log.steps[j]).is_prefix_of(
        routed_to(log.sends, n, j),
    ) by {
        let a = letters_received(log.steps[j]);
        let whole = a + mail.queue(j);
        assert(whole.subrange(0, a.len() as int) =~= a);
    }
}

/// Drives party `i` once and applies what came back; hands back the record
/// with this step added.
#[verifier::spinoff_prover]
#[verifier::rlimit(100)]
fn drive_party<M, O, P: PartyDriver<M, O>>(
    party: &mut P,
    i: usize,
    mail: &mut Mailboxes<M>,
    wants: &mut bool,
    log0: Ghost<SimLog<M, O>>,
) -> (r: (Result<Option<O>, SimError>, Ghost<SimLog<M, O>>))
    requires
        old(mail).wf(),
        i < old(mail).parties() <= u16::MAX,
        consistent(log0@, *old(mail), old(mail).parties() as int),
        log0@.steps.len() == old(mail).parties(),
        orderly(log0@.steps[i as int]),
        fault_free(log0@.steps[i as int]),
        final_output(log0@.steps[i as int]) is None,
        !*old(wants),
    ensures
        final(mail).wf(),
        final(mail).parties() == old(mail).parties(),
        consistent(r.1@, *final(mail), old(mail).parties() as int),
        r.1@.steps.len() == old(mail).parties(),
        r.1@.turns == log0@.turns,
        r.1@.steps == log0@.steps.update(i as int, r.1@.steps[i as int]),
        r.1@.steps[i as int].len() == log0@.steps[i as int].len() + 1,
        log0@.steps[i as int].is_prefix_of(r.1@.steps[i as int]),
        orderly(r.1@.steps[i as int]),
        *final(wants) ==> r.1@.steps[i as int].last() is Waiting,
        r.0 is Ok ==> final_output(r.1@.steps[i as int]) == r.0->Ok_0 && fault_free(r.1@.steps[i as int]),
        r.0 is Err ==> is_fault(r.1@.steps[i as int].last()),
        r.0 matches Err(SimError::ProtocolError { party, reason }) ==> party == i && r.1@.steps[i as int].last()
            == (Step::<M, O>::Failed { reason }),
        r.0 matches Err(SimError::UnknownRecipient { party, recipient }) ==> party == i && recipient
            >= old(mail).parties() && r.1@.steps[i as int].last() == (Step::<M, O>::Misaddressed { recipient }),
        r.0 matches Err(SimError::IdsExhausted) ==> r.1@.steps[i as int].last() is Dropped,
        r.0 is Err ==> r.0->Err_0 is ProtocolError || r.0->Err_0 is UnknownRecipient || r.0->Err_0 is IdsExhausted,
{
    let n = mail.len();
    let ghost m0 = *mail;
    let out = party.drive_one();
    let ghost og = out;
    let t = apply_outcome(out, i, mail, wants);
    let ghost step = if og is Ok && og->Ok_0 is SendMsg && t is Err && t->Err_0 is IdsExhausted {
        Step::Dropped { dest: og->Ok_0->SendMsg_0.dest, msg: og->Ok_0->SendMsg_0.msg }
    } else {
        step_of(og, n as int)
    };
    let ghost old_i = log0@.steps[i as int];
    let ghost new_log = if step is Sent {
        SimLog {
            steps: log0@.steps.update(i as int, old_i.push(step)),
            sends: log0@.sends.push(Route { from: i as int, dest: step->Sent_dest, msg: step->Sent_msg }),
            turns: log0@.turns,
        }
    } else {
        with_step(log0@, i as int, step)
    };
    proof {
        if step is Sent {
            lemma_consistent_post(log0@, m0, *mail, n as int, i as int, step->Sent_dest, step->Sent_msg);
        } else {
            lemma_consistent_plain(log0@, m0, n as int, i as int, step);
        }
        lemma_orderly_push(old_i, step);
        let s = old_i.push(step);
        assert(new_log.steps[i as int] == s);
        assert(new_log.steps =~= log0@.steps.update(i as int, s));
        assert(s.last() == step);
        if t is Ok {
            assert forall|k: int| 0 <= k < s.len() implies !is_fault(#[trigger] s[k]) by {
                if k < old_i.len() {
                    assert(s[k] == old_i[k]);
                }
            }
        }
    }
    (t, Ghost(new_log))
}

/// One party's turn: deliver a waiting message when the party asked for one,
/// then drive it, routing what it sends, until it blocks with an empty inbox,
/// finishes, or uses up its steps for this turn. Hands back the record with
/// this turn's steps added.
#[verifier::spinoff_prover]
#[verifier::rlimit(100)]
fn take_turn<M, O, P: PartyDriver<M, O>>(
    party: &mut P,
    i: usize,
    mail: &mut Mailboxes<M>,
    wants: &mut bool,
    log0: Ghost<SimLog<M, O>>,
) -> (r: (Result<Option<O>, SimError>, Ghost<SimLog<M, O>>))
    requires
        old(mail).wf(),
        i < old(mail).parties() <= u16::MAX,
        consistent(log0@, *old(mail), old(mail).parties() as int),
        log0@.steps.len() == old(mail).parties(),
        orderly(log0@.steps[i as int]),
        fault_free(log0@.steps[i as int]),
        final_output(log0@.steps[i as int]) is None,
        *old(wants) ==> log0@.steps[i as int].len() > 0 && log0@.steps[i as int].last() is Waiting,
    ensures
        final(mail).wf(),
        final(mail).parties() == old(mail).parties(),
        consistent(r.1@, *final(mail), old(mail).parties() as int),
        r.1@.steps.len() == old(mail).parties(),
        r.1@.turns == log0@.turns,
        r.1@.steps == log0@.steps.update(i as int, r.1@.steps[i as int]),
        log0@.steps[i as int].is_prefix_of(r.1@.steps[i as int]),
        orderly(r.1@.steps[i as int]),
        *final(wants) ==> r.1@.steps[i as int].len() > 0 && r.1@.steps[i as int].last() is Waiting,
        r.0 is Ok ==> final_output(r.1@.steps[i as int]) == r.0->Ok_0 && fault_free(r.1@.steps[i as int]),
        r.0 is Err ==> r.1@.steps[i as int].len() > 0 && is_fault(r.1@.steps[i as int].last()) && fault_free(
            r.1@.steps[i as int].drop_last(),
        ),
        r.0 matches Err(SimError::ProtocolError { party, reason }) ==> party == i && r.1@.steps[i as int].last()
            == (Step::<M, O>::Failed { reason }),
        r.0 matches Err(SimError::ReceiveFailed { party }) ==> party == i && r.1@.steps[i as int].last() is Refused,
        r.0 matches Err(SimError::UnknownRecipient { party, recipient }) ==> party == i && recipient
            >= old(mail).parties() && r.1@.steps[i as int].last() == (Step::<M, O>::Misaddressed { recipient }),
        r.0 matches Err(SimError::IdsExhausted) ==> r.1@.steps[i as int].last() is Dropped,
        !(r.0 matches Err(SimError::DidNotComplete { .. })),
        !(r.0 matches Err(SimError::MissingOutput { .. })),
{
    let n = mail.len();
    let ghost mut log = log0@;
    let mut steps: u64 = 0;
    while steps < MAX_TURN_STEPS
        invariant
            mail.wf(),
            mail.parties() == n == old(mail).parties(),
            i < n <= u16::MAX,
            consistent(log, *mail, n as int),
            log.steps.len() == n,
            log0@.steps.len() == n,
            log.turns == log0@.turns,
            log.steps == log0@.steps.update(i as int, log.steps[i as int]),
            log0@.steps[i as int].is_prefix_of(log.steps[i as int]),
            orderly(log.steps[i as int]),
            fault_free(log.steps[i as int]),
            final_output(log.steps[i as int]) is None,
            *wants ==> log.steps[i as int].len() > 0 && log.steps[i as int].last() is Waiting,
        decreases MAX_TURN_STEPS - steps,
    {
        steps += 1;
        if *wants {
            let ghost m0 = *mail;
            match mail.take(i) {
                Some(p) => {
                    let msg = mail.message(p);
                    let ghost letter = mail.letter(p);
                    let ghost old_i = log.steps[i as int];
                    if party.receive(p.sender, p.kind, msg).is_err() {
                        proof {
                            let step = Step::Refused { letter };
                            lemma_consistent_take(log, m0, *mail, n as int, i as int, step, letter);
                            lemma_orderly_push(old_i, step);
                            let s = old_i.push(step);
                            assert(s.drop_last() =~= old_i);
                            let prev = log;
                            log = with_step(log, i as int, step);
                            assert(log.steps[i as int] == s);
                            lemma_update_twice(log0@.steps, prev.steps, log.steps, i as int);
                            assert(old_i.is_prefix_of(s));
                        }
                        *wants = false;
                        return (Err(SimError::ReceiveFailed { party: i }), Ghost(log));
                    }
                    proof {
                        let step = Step::Delivered { letter };
                        lemma_consistent_take(log, m0, *mail, n as int, i as int, step, letter);
                        lemma_orderly_push(old_i, step);
                        let s = old_i.push(step);
                        let prev = log;
                        log = with_step(log, i as int, step);
                        assert(log.steps[i as int] == s);
                        lemma_update_twice(log0@.steps, prev.steps, log.steps, i as int);
                        assert forall|k: int| 0 <= k < s.len() implies !is_fault(#[trigger] s[k]) by {
                            if k < old_i.len() {
                                assert(s[k] == old_i[k]);
                            }
                        }
                        assert(final_output(s) is None);
                    }
                    *wants = false;
                },
                None => {
                    proof {
                        lemma_consistent_same_mail(log, m0, *mail, n as int);
                    }
                    return (Ok(None), Ghost(log));
                },
            }
        }
        let ghost before = log;
        let (t, Ghost(next)) = drive_party(party, i, mail, wants, Ghost(log));
        proof {
            log = next;
            lemma_update_twice(log0@.steps, before.steps, log.steps, i as int);
            assert(log.steps[i as int].drop_last() =~= before.steps[i as int]);
        }
        match t {
            Err(e) => {
                return (Err(e), Ghost(log));
            },
            Ok(Some(o)) => {
                return (Ok(Some(o)), Ghost(log));
            },
            Ok(None) => {},
        }
    }
    (Ok(None), Ghost(log))
}

/// Runs every party of one protocol to completion in this process and
/// returns their outputs in party order, with a record of the run.
///
/// Parties take turns round-robin; a broadcast from party `i` is placed in
/// every inbox but `i`'s, a direct message in the named party's; each inbox
/// hands its letters over in the order of placement, once each, and only to
/// a party that waits. A finished party is not driven again. The simulation
/// gives up after `MAX_SWEEPS` sweeps in each of which every unfinished party
/// took a turn, and stops at the first error.
#[verifier::spinoff_prover]
#[verifier::rlimit(100)]
pub fn run<M, O, P: PartyDriver<M, O>>(parties: Vec<P>) -> (r: (Result<Vec<O>, SimError>, Ghost<SimLog<M, O>>))
    requires
        parties@.len() <= u16::MAX,
    ensures
        ({
            let (res, log) = r;
            let n = parties@.len() as int;
            let steps = log@.steps;
            let turns = log@.turns;
            &&& steps.len() == n
            &&& forall|i: int| 0 <= i < n ==> orderly(#[trigger] steps[i])
            &&& forall|j: int| 0 <= j < n ==> letters_received(#[trigger] steps[j]).is_prefix_of(
                routed_to(log@.sends, n, j),
            )
            &&& forall|i: int| 0 <= i < n ==> sent_by(#[trigger] steps[i]) == sends_from(log@.sends, i)
            &&& forall|k: int| 0 <= k < log@.sends.len() ==> 0 <= (#[trigger] log@.sends[k]).from < n
            &&& forall|i: int, k: int|
                0 <= i < n && 0 <= k < steps[i].len() && is_fault(#[trigger] steps[i][k]) ==> res is Err && i
                    == turns.last() && k == steps[i].len() - 1
            &&& n == 0 ==> res is Ok
            &&& res matches Ok(v) ==> v@.len() == n && forall|i: int|
                0 <= i < n ==> #[trigger] final_output(steps[i]) == Some(v@[i])
            &&& res is Err && !(res->Err_0 is DidNotComplete) ==> turns.len() > 0 && 0 <= turns.last() < n
                && is_fault(steps[turns.last()].last())
            &&& res matches Err(SimError::DidNotComplete { finished, total }) ==> total == n && finished
                == finished_count(outputs_of(steps)) && finished < total && forall|i: int|
                0 <= i < n && final_output(#[trigger] steps[i]) is None ==> turns_of(turns, i) == MAX_SWEEPS
            &&& res matches Err(SimError::ProtocolError { party, reason }) ==> party == turns.last()
                && steps[party as int].last() == (Step::<M, O>::Failed { reason })
            &&& res matches Err(SimError::ReceiveFailed { party }) ==> party == turns.last()
                && steps[party as int].last() is Refused
            &&& res matches Err(SimError::UnknownRecipient { party, recipient }) ==> party == turns.last()
                && recipient >= n && steps[party as int].last() == (Step::<M, O>::Misaddressed { recipient })
            &&& res matches Err(SimError::IdsExhausted) ==> steps[turns.last()].last() is Dropped
            &&& !(res matches Err(SimError::MissingOutput { .. }))
        }),
{
    let ghost given = parties@.len();
    let n = parties.len();
    let mut drivers = parties;
    let mut mail: Mailboxes<M> = Mailboxes::new(n);
    let mut wants: Vec<bool> = Vec::new();
    let mut outputs: Vec<Option<O>> = Vec::new();
    let ghost mut log: SimLog<M, O> = SimLog { steps: Seq::empty(), sends: Seq::empty(), turns: Seq::empty() };
    let mut j: usize = 0;
    while j < n
        invariant
            j <= n,
            n == given == parties@.len() == mail.parties(),
            wants@.len() == j,
            outputs@.len() == j,
            log.steps.len() == j,
            log.sends.len() == 0,
            log.turns.len() == 0,
            forall|k: int| 0 <= k < j ==> (#[trigger] outputs@[k]) is None && !wants@[k] && log.steps[k].len() == 0,
        decreases n - j,
    {
        wants.push(false);
        outputs.push(None);
        proof {
            log.steps = log.steps.push(Seq::empty());
        }
        j += 1;
    }
    proof {
        assert(finished_count(outputs@) == 0) by {
            lemma_none_count(outputs@);
        }
        assert(outputs@ =~= outputs_of(log.steps));
        reveal(orderly);
        reveal(consistent);
        assert forall|k: int| 0 <= k < n implies orderly(#[trigger] log.steps[k]) && fault_free(log.steps[k]) && (
        wants@[k] ==> log.steps[k].len() > 0 && log.steps[k].last() is Waiting) by {
            assert(outputs@[k] is None);
        }
        assert forall|k: int| 0 <= k < n implies letters_received(#[trigger] log.steps[k]) + mail.queue(k)
            == routed_to(log.sends, n as int, k) by {
            assert(outputs@[k] is None);
            assert(mail.queue(k).len() == 0);
            assert(letters_received(log.steps[k]) + mail.queue(k) =~= seq![]);
        }
        assert forall|k: int| 0 <= k < n implies sent_by(#[trigger] log.steps[k]) == sends_from(log.sends, k) by {
            assert(outputs@[k] is None);
        }
        assert(consistent(log, mail, n as int));
    }
    let mut done: usize = 0;
    let mut sweep: u64 = 0;
    while sweep < MAX_SWEEPS && done < n
        invariant
            n == given == parties@.len() == drivers@.len() == wants@.len() == outputs@.len() == mail.parties(),
            n <= u16::MAX,
            mail.wf(),
            consistent(log, mail, n as int),
            log.steps.len() == n,
            outputs@ == outputs_of(log.steps),
            forall|k: int| 0 <= k < n ==> orderly(#[trigger] log.steps[k]),
            forall|k: int| 0 <= k < n ==> fault_free(#[trigger] log.steps[k]),
            forall|k: int| 0 <= k < n ==> #[trigger] wants@[k] ==> log.steps[k].len() > 0 && log.steps[k].last() is Waiting,
            forall|k: int| 0 <= k < n && final_output(#[trigger] log.steps[k]) is None ==> turns_of(log.turns, k) == sweep,
            done == finished_count(outputs@),
            sweep <= MAX_SWEEPS,
        decreases MAX_SWEEPS - sweep,
    {
        let mut i: usize = 0;
        while i < n
            invariant
                n == given == parties@.len() == drivers@.len() == wants@.len() == outputs@.len() == mail.parties(),
                n <= u16::MAX,
                mail.wf(),
                consistent(log, mail, n as int),
                log.steps.len() == n,
                outputs@ == outputs_of(log.steps),
                forall|k: int| 0 <= k < n ==> orderly(#[trigger] log.steps[k]),
                forall|k: int| 0 <= k < n ==> fault_free(#[trigger] log.steps[k]),
                forall|k: int| 0 <= k < n ==> #[trigger] wants@[k] ==> log.steps[k].len() > 0 && log.steps[k].last() is Waiting,
                forall|k: int| 0 <= k < n && final_output(#[trigger] log.steps[k]) is None ==> turns_of(log.turns, k)
                    == sweep + if k < i { 1int } else { 0int },
                done == finished_count(outputs@),
                i <= n,
                sweep < MAX_SWEEPS,
            decreases n - i,
        {
            if outputs[i].is_none() {
                let mut w = wants[i];
                proof {
                    assert(outputs_of(log.steps)[i as int] == final_output(log.steps[i as int]));
                }
                let ghost before = log;
                let (t, Ghost(after)) = take_turn(&mut drivers[i], i, &mut mail, &mut w, Ghost(log));
                wants[i] = w;
                proof {
                    lemma_turns_push(before.turns, i as int);
                    log = SimLog { turns: before.turns.push(i as int), ..after };
                    assert(consistent(log, mail, n as int)) by {
                        reveal(consistent);
                    }
                    assert(outputs_of(log.steps) =~= outputs_of(before.steps).update(i as int, final_output(log.steps[i as int])));
                    assert forall|k: int| 0 <= k < n && k != i implies #[trigger] log.steps[k] == before.steps[k] by {}
                    assert forall|k: int| 0 <= k < n && final_output(#[trigger] log.steps[k]) is None implies turns_of(
                        log.turns,
                        k,
                    ) == sweep + if k < i + 1 { 1int } else { 0int } by {
                        if k != i {
                            assert(log.steps[k] == before.steps[k]);
                        }
                    }
                }
                match t {
                    Err(e) => {
                        proof {
                            lemma_consistent_facts(log, mail, n as int);
                            assert(log.turns.last() == i);
                            assert forall|a: int, k: int|
                                0 <= a < n && 0 <= k < log.steps[a].len() && is_fault(#[trigger] log.steps[a][k]) implies a
                                == log.turns.last() && k == log.steps[a].len() - 1 by {
                                if a != i {
                                    assert(log.steps[a] == before.steps[a]);
                                    assert(fault_free(before.steps[a]));
                                } else if k < log.steps[a].len() - 1 {
                                    assert(log.steps[a].drop_last()[k] == log.steps[a][k]);
                                }
                            }
                        }
                        return (Err(e), Ghost(log));
                    },
                    Ok(Some(o)) => {
                        proof {
                            lemma_finished_count_fill(outputs@, i as int, o);
                            lemma_finished_count_bound(outputs@.update(i as int, Some(o)));
                        }
                        outputs[i] = Some(o);
                        done += 1;
                    },
                    Ok(None) => {
                        proof {
                            assert(outputs@ =~= outputs_of(log.steps));
                        }
                    },
                }
                proof {
                    assert forall|k: int| 0 <= k < n implies fault_free(#[trigger] log.steps[k]) && orderly(log.steps[k]) && (
                    wants@[k] ==> log.steps[k].len() > 0 && log.steps[k].last() is Waiting) by {
                        if k != i {
                            assert(log.steps[k] == before.steps[k]);
                        }
                    }
                }
            } else {
                proof {
                    assert forall|k: int| 0 <= k < n && final_output(#[trigger] log.steps[k]) is None implies turns_of(
                        log.turns,
                        k,
                    ) == sweep + if k < i + 1 { 1int } else { 0int } by {
                        if k == i {
                            assert(outputs@[i as int] is Some);
                        }
                    }
                }
            }
            i += 1;
        }
        sweep += 1;
    }
    proof {
        lemma_consistent_facts(log, mail, n as int);
    }
    if done < n {
        return (Err(SimError::DidNotComplete { finished: done, total: n }), Ghost(log));
    }
    proof {
        lemma_finished_count_full(outputs@);
    }
    let res = collect_outputs(outputs);
    (res, Ghost(log))
}

proof fn lemma_sends_from_nonempty<M>(sends: Seq<Route<M>>, k: int)
    requires
        0 <= k < sends.len(),
    ensures
        sends_from(sends, sends[k].from).len() > 0,
    decreases sends.len(),
{
    if k < sends.len() - 1 {
        assert(sends.drop_last()[k] == sends[k]);
        lemma_sends_from_nonempty(sends.drop_last(), k);
    }
}

proof fn lemma_routed_empty<M>(sends: Seq<Route<M>>, n: int, j: int)
    requires
        sends.len() == 0,
    ensures
        routed_to(sends, n, j).len() == 0,
{
}

/// When no party sent anything, no party was handed a letter.
pub proof fn nothing_sent_nothing_received<M>(
    sends: Seq<Route<M>>,
    sent: Seq<Seq<(Destination, M)>>,
    received: Seq<Seq<Letter<M>>>,
    n: int,
)
    requires
        sent.len() == n && received.len() == n,
        forall|i: int| 0 <= i < n ==> #[trigger] sent[i] == sends_from(sends, i),
        forall|k: int| 0 <= k < sends.len() ==> 0 <= (#[trigger] sends[k]).from < n,
        forall|j: int| 0 <= j < n ==> (#[trigger] received[j]).is_prefix_of(routed_to(sends, n, j)),
        forall|i: int| 0 <= i < n ==> (#[trigger] sent[i]).len() == 0,
    ensures
        forall|j: int| 0 <= j < n ==> (#[trigger] received[j]).len() == 0,
{
    if sends.len() > 0 {
        let k = sends.len() - 1;
        lemma_sends_from_nonempty(sends, k);
        let i = sends[k].from;
        assert(sent[i].len() == 0);
    }
    assert forall|j: int| 0 <= j < n implies (#[trigger] received[j]).len() == 0 by {
        lemma_routed_empty(sends, n, j);
    }
}

/// When no party has finished, a simulation that gives up reports that none
/// finished.
pub proof fn none_finished<M, O>(steps: Seq<Seq<Step<M, O>>>)
    requires
        forall|i: int| 0 <= i < steps.len() ==> final_output(#[trigger] steps[i]) is None,
    ensures
        finished_count(outputs_of(steps)) == 0,
{
    assert forall|k: int| 0 <= k < outputs_of(steps).len() implies (#[trigger] outputs_of(steps)[k]) is None by {
        assert(final_output(steps[k]) is None);
    }
    lemma_none_count(outputs_of(steps));
}

proof fn lemma_none_count<O>(s: Seq<Option<O>>)
    requires
        forall|k: int| 0 <= k < s.len() ==> (#[trigger] s[k]) is None,
    ensures
        finished_count(s) == 0,
    decreases s.len(),
{
    if s.len() > 0 {
        lemma_none_count(s.drop_last());
    }
}

proof fn lemma_finished_count_full<O>(s: Seq<Option<O>>)
    requires
        finished_count(s) >= s.len(),
    ensures
        forall|k: int| 0 <= k < s.len() ==> (#[trigger] s[k]) is Some,
    decreases s.len(),
{
    if s.len() > 0 {
        lemma_finished_count_bound(s.drop_last());
        lemma_finished_count_full(s.drop_last());
        assert forall|k: int| 0 <= k < s.len() implies (#[trigger] s[k]) is Some by {
            if k < s.len() - 1 {
                assert(s.drop_last()[k] == s[k]);
            }
        }
    }
}

} // verus!
