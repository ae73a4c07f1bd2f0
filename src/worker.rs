use std::collections::VecDeque;
use vstd::prelude::*;

use crate::container::CxxrtlContainer;
use crate::protocol::CommandResponse;
use crate::query::find_first;
use crate::query::lemma_find_first_none;
use crate::query::lemma_find_first_some;
use crate::state::applied;
use crate::state::response_matches;
use crate::state::PendingOp;

verus! {

/// The byte that ends each frame on the wire.
pub const FRAME_END: u8 = 0;

/// The bookkeeping of the connection's background side: bytes received but not yet
/// framed, and what to do with each answer still outstanding, oldest first. Answers are
/// matched to requests by position alone.
pub struct CxxrtlWorker {
    pub read_buf: Vec<u8>,
    pub callback_queue: VecDeque<PendingOp>,
}

/// What became of one answer.
#[derive(PartialEq, Eq, Structural, Clone, Copy, Debug)]
pub enum Dispatch {
    /// It was applied to the oldest outstanding request.
    Applied,
    /// It was not the kind of answer the oldest outstanding request waits for; that
    /// request is used up and the answer is dropped.
    Mismatched,
    /// No request was outstanding; the answer is dropped.
    Unexpected,
}

impl CxxrtlWorker {
    pub fn new() -> (r: CxxrtlWorker)
        ensures
            r.read_buf@.len() == 0,
            r.callback_queue@.len() == 0,
    {
        CxxrtlWorker { read_buf: Vec::new(), callback_queue: VecDeque::new() }
    }

    /// Records that a command was written; `op` will apply its answer.
    pub fn on_command_sent(&mut self, op: PendingOp)
        ensures
            final(self).callback_queue@ == old(self).callback_queue@.push(op),
            final(self).read_buf == old(self).read_buf,
    {
        self.callback_queue.push_back(op);
    }

    /// Appends received bytes to the read buffer.
    pub fn on_bytes(&mut self, bytes: &[u8])
        ensures
            final(self).read_buf@ == old(self).read_buf@ + bytes@,
            final(self).callback_queue == old(self).callback_queue,
    {
        let mut i: usize = 0;
        while i < bytes.len()
            invariant
                i <= bytes@.len(),
                self.read_buf@ == old(self).read_buf@ + bytes@.take(i as int),
                self.callback_queue == old(self).callback_queue,
            decreases bytes.len() - i,
        {
            self.read_buf.push(bytes[i]);
            proof {
                assert(self.read_buf@ =~= old(self).read_buf@ + bytes@.take(i + 1));
            }
            i = i + 1;
        }
        proof {
            assert(bytes@.take(bytes@.len() as int) =~= bytes@);
        }
    }

    /// Takes the first complete frame out of the read buffer: the bytes before the first
    /// frame end. The frame end goes too. Nothing while no frame is complete.
    pub fn next_frame(&mut self) -> (r: Option<Vec<u8>>)
        ensures
            final(self).callback_queue == old(self).callback_queue,
            match find_first(old(self).read_buf@, FRAME_END) {
                Some(k) => r is Some && r->0@ == old(self).read_buf@.take(k)
                    && final(self).read_buf@ == old(self).read_buf@.skip(k + 1),
                None => r is None && final(self).read_buf == old(self).read_buf,
            },
    {
        let n = self.read_buf.len();
        let mut k: usize = 0;
        while k < n
            invariant
                n == self.read_buf@.len(),
                k <= n,
                forall|j: int| 0 <= j < k ==> self.read_buf@[j] != FRAME_END,
            ensures
                k == n || self.read_buf@[k as int] == FRAME_END,
            decreases n - k,
        {
            if self.read_buf[k] == FRAME_END {
                break;
            }
            k = k + 1;
        }
        if k == n {
            proof {
                lemma_find_first_none(self.read_buf@, FRAME_END);
            }
            return None;
        }
        proof {
            lemma_find_first_some(self.read_buf@, FRAME_END, k as int);
        }
        let frame = copy_bytes(&self.read_buf, 0, k);
        let rest = copy_bytes(&self.read_buf, k + 1, n);
        proof {
            assert(frame@ =~= self.read_buf@.take(k as int));
            assert(rest@ =~= self.read_buf@.skip(k + 1));
        }
        self.read_buf = rest;
        Some(frame)
    }

    /// Applies an answer to the oldest outstanding request, which is used up whether or
    /// not the answer is of the kind it waits for.
    pub fn on_response(&mut self, container: &mut CxxrtlContainer, response: CommandResponse) -> (r:
        Dispatch)
        requires
            old(container).wf(),
        ensures
            final(container).wf(),
            final(self).read_buf == old(self).read_buf,
            old(self).callback_queue@.len() == 0 ==> r == Dispatch::Unexpected
                && final(self).callback_queue@ == old(self).callback_queue@
                && *final(container) == *old(container),
            old(self).callback_queue@.len() > 0 ==> final(self).callback_queue@
                == old(self).callback_queue@.drop_first() && (r == Dispatch::Applied
                <==> response_matches(old(self).callback_queue@[0], response)),
            r == Dispatch::Mismatched ==> *final(container) == *old(container),
            final(container).outbox == old(container).outbox,
            old(self).callback_queue@.len() > 0 && r == Dispatch::Applied ==> applied(
                old(container).data,
                old(self).callback_queue@[0],
                response,
                final(container).data,
            ),
    {
        match self.callback_queue.pop_front() {
            None => Dispatch::Unexpected,
            Some(op) => {
                if container.apply_response(op, response) {
                    Dispatch::Applied
                } else {
                    Dispatch::Mismatched
                }
            },
        }
    }

    /// Uses up the oldest outstanding request without applying anything: its answer
    /// arrived but could not be read.
    pub fn discard_oldest(&mut self) -> (r: bool)
        ensures
            r == (old(self).callback_queue@.len() > 0),
            r ==> final(self).callback_queue@ == old(self).callback_queue@.drop_first(),
            !r ==> final(self).callback_queue@ == old(self).callback_queue@,
            final(self).read_buf == old(self).read_buf,
    {
        self.callback_queue.pop_front().is_some()
    }
}

fn copy_bytes(b: &Vec<u8>, from: usize, to: usize) -> (r: Vec<u8>)
    requires
        from <= to <= b@.len(),
    ensures
        r@ == b@.subrange(from as int, to as int),
{
    let mut out: Vec<u8> = Vec::new();
    let mut i: usize = from;
    while i < to
        invariant
            from <= i <= to <= b@.len(),
            out@ == b@.subrange(from as int, i as int),
        decreases to - i,
    {
        out.push(b[i]);
        proof {
            assert(out@ =~= b@.subrange(from as int, i + 1));
        }
        i = i + 1;
    }
    out
}

} // verus!
