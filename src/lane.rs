//! Write continuation: what one recipient is still owed, and the send in flight.
use vstd::prelude::*;

verus! {

/// Abstract state of a write lane.
#[verifier::ext_equal]
pub struct LaneView {
    /// Bytes of the send that was last submitted, counted from its first byte.
    pub payload: Seq<u8>,
    /// How many bytes of `payload` the recipient has already been given.
    pub flushed: nat,
    /// Bytes that arrived while a send was in flight; they go out after it.
    pub queued: Seq<u8>,
}

impl LaneView {
    /// A send is in flight exactly when the payload is not empty; an idle lane
    /// owes nothing.
    pub open spec fn wf(self) -> bool {
        &&& self.payload.len() == 0 ==> self.flushed == 0 && self.queued.len() == 0
        &&& self.payload.len() > 0 ==> self.flushed < self.payload.len()
    }

    /// A send is in flight on this lane.
    pub open spec fn busy(self) -> bool {
        self.payload.len() > 0
    }

    /// The bytes that the send in flight was asked to transfer.
    pub open spec fn submitted(self) -> Seq<u8> {
        self.payload.skip(self.flushed as int)
    }

    /// Every byte still owed to the recipient, in the order it must arrive.
    pub open spec fn unsent(self) -> Seq<u8> {
        self.submitted() + self.queued
    }

    /// The lane after send completions of sizes `ws`, one after the other.
    pub open spec fn after_writes(self, ws: Seq<nat>) -> LaneView
        decreases ws.len(),
    {
        if ws.len() == 0 {
            self
        } else {
            self.after_write(ws[0]).after_writes(ws.drop_first())
        }
    }

    /// The bytes the recipient is given by send completions of sizes `ws`.
    pub open spec fn delivered(self, ws: Seq<nat>) -> Seq<u8>
        decreases ws.len(),
    {
        if ws.len() == 0 {
            Seq::empty()
        } else {
            transferred(self.submitted(), ws[0]) + self.after_write(ws[0]).delivered(ws.drop_first())
        }
    }

    /// The lane with nothing in flight and nothing owed.
    pub open spec fn idle() -> LaneView {
        LaneView { payload: Seq::empty(), flushed: 0, queued: Seq::empty() }
    }

    /// The lane after `data` is owed to the recipient: it becomes the payload of a
    /// new send when the lane was idle, and waits behind the send in flight otherwise.
    pub open spec fn fed(self, data: Seq<u8>) -> LaneView {
        if self.busy() {
            LaneView { queued: self.queued + data, ..self }
        } else if data.len() > 0 {
            LaneView { payload: data, flushed: 0, queued: Seq::empty() }
        } else {
            self
        }
    }

    /// The lane after the send in flight reported `written` bytes: the payload
    /// continues from the new offset, or the queued bytes become the next payload
    /// once it is fully flushed.
    pub open spec fn after_write(self, written: nat) -> LaneView {
        if written < self.submitted().len() {
            LaneView { flushed: self.flushed + written, ..self }
        } else {
            LaneView { payload: self.queued, flushed: 0, queued: Seq::empty() }
        }
    }
}

/// Bytes of a transfer of `written` bytes out of `submitted`, as the recipient sees them.
pub open spec fn transferred(submitted: Seq<u8>, written: nat) -> Seq<u8> {
    if written < submitted.len() {
        submitted.take(written as int)
    } else {
        submitted
    }
}

/// Sum of fragment sizes.
pub open spec fn total(ws: Seq<nat>) -> nat
    decreases ws.len(),
{
    if ws.len() == 0 {
        0
    } else {
        ws[0] + total(ws.drop_first())
    }
}

/// One send completion on a lane: the bytes it transferred, followed by what the
/// lane still owes afterwards, are exactly what the lane owed before.
pub proof fn lemma_write_step(l: LaneView, written: nat)
    requires
        l.wf(),
        l.busy(),
    ensures
        l.unsent() == transferred(l.submitted(), written) + l.after_write(written).unsent(),
        l.after_write(written).wf(),
{
    let s = l.submitted();
    if written < s.len() {
        assert(s =~= s.take(written as int) + l.after_write(written).submitted());
        assert(l.unsent() =~= transferred(s, written) + l.after_write(written).unsent());
    } else {
        assert(l.after_write(written).submitted() =~= l.queued);
        assert(l.unsent() =~= transferred(s, written) + l.after_write(written).unsent());
    }
}

/// However the facade fragments the writes, send completions whose sizes add up to
/// the length of the payload in flight hand the recipient the whole payload exactly
/// once, in order, with no gap and no repetition, and leave the lane idle.
pub proof fn lemma_fragments_reassemble(l: LaneView, ws: Seq<nat>)
    requires
        l.wf(),
        l.queued.len() == 0,
        total(ws) == l.submitted().len(),
    ensures
        l.delivered(ws) == l.submitted(),
        !l.after_writes(ws).busy(),
    decreases ws.len(),
{
    if ws.len() == 0 {
        assert(l.submitted() =~= Seq::<u8>::empty());
    } else {
        let w = ws[0];
        let next = l.after_write(w);
        if l.busy() {
            lemma_write_step(l, w);
        }
        if w < l.submitted().len() {
            assert(next.submitted() =~= l.submitted().skip(w as int));
        } else {
            assert(next.submitted() =~= Seq::<u8>::empty());
        }
        lemma_fragments_reassemble(next, ws.drop_first());
        assert(l.submitted() =~= transferred(l.submitted(), w) + next.submitted());
    }
}

/// Copies `v[from..]` into a new vector.
pub fn copy_from(v: &Vec<u8>, from: usize) -> (r: Vec<u8>)
    requires
        from <= v@.len(),
    ensures
        r@ == v@.skip(from as int),
{
    let mut r: Vec<u8> = Vec::new();
    let mut i: usize = from;
    while i < v.len()
        invariant
            from <= i <= v@.len(),
            r@ == v@.subrange(from as int, i as int),
        decreases v@.len() - i,
    {
        r.push(v[i]);
        i = i + 1;
        assert(r@ =~= v@.subrange(from as int, i as int));
    }
    assert(r@ =~= v@.skip(from as int));
    r
}

/// The outgoing side of one connection.
pub struct WriteLane {
    payload: Vec<u8>,
    flushed: usize,
    queued: Vec<u8>,
}

impl View for WriteLane {
    type V = LaneView;

    closed spec fn view(&self) -> LaneView {
        LaneView { payload: self.payload@, flushed: self.flushed as nat, queued: self.queued@ }
    }
}

impl WriteLane {
    /// A lane with nothing in flight and nothing owed.
    pub fn new() -> (r: WriteLane)
        ensures
            r@ == LaneView::idle(),
            r@.wf(),
            r@.unsent() == Seq::<u8>::empty(),
    {
        let r = WriteLane { payload: Vec::new(), flushed: 0, queued: Vec::new() };
        assert(r@.unsent() =~= Seq::<u8>::empty());
        assert(r@ =~= LaneView::idle());
        r
    }

    /// Whether a send is in flight.
    pub fn is_busy(&self) -> (r: bool)
        ensures
            r == self@.busy(),
    {
        self.payload.len() > 0
    }

    /// Length of the payload of the send in flight (0 when idle).
    pub fn payload_length(&self) -> (r: usize)
        ensures
            r == self@.payload.len(),
    {
        self.payload.len()
    }

    /// Bytes of the payload already transferred.
    pub fn bytes_flushed(&self) -> (r: usize)
        ensures
            r == self@.flushed,
    {
        self.flushed
    }

    /// Owes `data` to the recipient after everything owed so far. Returns whether a
    /// send of `data` must be submitted now, which is when the lane was idle.
    pub fn enqueue(&mut self, data: &Vec<u8>) -> (start: bool)
        requires
            old(self)@.wf(),
        ensures
            final(self)@ == old(self)@.fed(data@),
            final(self)@.wf(),
            final(self)@.unsent() == old(self)@.unsent() + data@,
            start == (!old(self)@.busy() && data@.len() > 0),
            final(self)@.busy() == (old(self)@.busy() || data@.len() > 0),
            old(self)@.busy() ==> final(self)@.submitted() == old(self)@.submitted(),
            start ==> final(self)@.submitted() == data@,
    {
        if self.payload.len() == 0 {
            if data.len() > 0 {
                self.payload = copy_from(data, 0);
                self.flushed = 0;
                assert(data@.skip(0) =~= data@);
                assert(self@.unsent() =~= old(self)@.unsent() + data@);
                assert(self@ =~= old(self)@.fed(data@));
                true
            } else {
                assert(self@.unsent() =~= old(self)@.unsent() + data@);
                false
            }
        } else {
            let mut i: usize = 0;
            while i < data.len()
                invariant
                    i <= data@.len(),
                    self.payload@ == old(self).payload@,
                    self.flushed == old(self).flushed,
                    self.queued@ == old(self).queued@ + data@.take(i as int),
                decreases data@.len() - i,
            {
                self.queued.push(data[i]);
                i = i + 1;
                assert(self.queued@ =~= old(self).queued@ + data@.take(i as int));
            }
            assert(data@.take(data@.len() as int) =~= data@);
            assert(self@.unsent() =~= old(self)@.unsent() + data@);
            assert(self@ =~= old(self)@.fed(data@));
            false
        }
    }

    /// The bytes that the send in flight is to transfer, for submission.
    pub fn remainder(&self) -> (r: Vec<u8>)
        requires
            self@.wf(),
        ensures
            r@ == self@.submitted(),
    {
        copy_from(&self.payload, self.flushed)
    }

    /// Records that the send in flight transferred `written` bytes. Returns whether
    /// a send is in flight afterwards: the rest of the payload, or the queued bytes
    /// once the payload is fully flushed.
    pub fn complete(&mut self, written: usize) -> (more: bool)
        requires
            old(self)@.wf(),
            old(self)@.busy(),
        ensures
            final(self)@ == old(self)@.after_write(written as nat),
            final(self)@.wf(),
            more == final(self)@.busy(),
            old(self)@.unsent() == transferred(old(self)@.submitted(), written as nat)
                + final(self)@.unsent(),
            written < old(self)@.submitted().len() ==> {
                &&& final(self)@.payload == old(self)@.payload
                &&& final(self)@.flushed == old(self)@.flushed + written
                &&& final(self)@.queued == old(self)@.queued
            },
            written >= old(self)@.submitted().len() ==> {
                &&& final(self)@.payload == old(self)@.queued
                &&& final(self)@.flushed == 0
                &&& final(self)@.queued == Seq::<u8>::empty()
            },
    {
        let remaining = self.payload.len() - self.flushed;
        if written < remaining {
            self.flushed = self.flushed + written;
            proof {
                let s = old(self)@.submitted();
                assert(s =~= s.take(written as int) + self@.submitted());
                assert(old(self)@.unsent() =~= s.take(written as int) + self@.unsent());
            }
            true
        } else {
            let mut next: Vec<u8> = Vec::new();
            next.append(&mut self.queued);
            self.payload = next;
            self.flushed = 0;
            assert(self@.submitted() =~= self@.payload);
            assert(old(self)@.unsent() =~= old(self)@.submitted() + self@.unsent());
            self.payload.len() > 0
        }
    }
}

} // verus!
