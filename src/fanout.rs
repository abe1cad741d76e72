use vstd::prelude::*;

use crate::message_sender::copy_ids;
use crate::settings::Recepient;

verus! {

/// One remote call: forward `message_ids` of chat `from` to chat `to`, in thread
/// `thread_id` where there is one.
pub struct ForwardRequest {
    pub to: i64,
    pub thread_id: Option<i32>,
    pub from: i64,
    pub message_ids: Vec<i32>,
}

/// `q` forwards `ids` of chat `from` to recipient `r`.
pub open spec fn forwards_to(q: &ForwardRequest, from: i64, ids: Seq<i32>, r: Recepient) -> bool {
    q.to == r.chat_id && q.thread_id == r.thread_id && q.from == from && q.message_ids@ == ids
}

/// One call per recipient, in the recipients' order, each with the same posts.
pub fn plan_forwards(from: i64, message_ids: &Vec<i32>, recepients: &Vec<Recepient>) -> (r: Vec<
    ForwardRequest,
>)
    ensures
        r@.len() == recepients@.len(),
        forall|k: int| 0 <= k < r@.len() ==> forwards_to(&#[trigger] r@[k], from, message_ids@, recepients@[k]),
{
    let mut out: Vec<ForwardRequest> = Vec::new();
    let mut i: usize = 0;
    while i < recepients.len()
        invariant
            i <= recepients@.len(),
            out@.len() == i,
            forall|k: int| 0 <= k < i ==> forwards_to(&#[trigger] out@[k], from, message_ids@, recepients@[k]),
        decreases recepients@.len() - i,
    {
        let r = recepients[i];
        out.push(ForwardRequest {
            to: r.chat_id,
            thread_id: r.thread_id,
            from,
            message_ids: copy_ids(message_ids),
        });
        i = i + 1;
    }
    out
}

/// The record of one fan-out: per call, `None` while it runs, then whether it succeeded.
pub struct FanOut {
    outcomes: Vec<Option<bool>>,
}

/// Every call has come back.
pub open spec fn all_settled(o: Seq<Option<bool>>) -> bool {
    forall|k: int| 0 <= k < o.len() ==> (#[trigger] o[k]).is_some()
}

impl FanOut {
    pub closed spec fn outcomes(&self) -> Seq<Option<bool>> {
        self.outcomes@
    }

    /// A fan-out of `n` calls, all started and none settled.
    pub fn new(n: usize) -> (r: FanOut)
        ensures
            r.outcomes() == Seq::new(n as nat, |k: int| None::<bool>),
    {
        let mut outcomes: Vec<Option<bool>> = Vec::new();
        let mut i: usize = 0;
        while i < n
            invariant
                i <= n,
                outcomes@ == Seq::new(i as nat, |k: int| None::<bool>),
            decreases n - i,
        {
            outcomes.push(None);
            i = i + 1;
            assert(outcomes@ =~= Seq::new(i as nat, |k: int| None::<bool>));
        }
        FanOut { outcomes }
    }

    /// Notes how call `i` ended; no other call's record changes.
    pub fn record(&mut self, i: usize, succeeded: bool)
        requires
            i < old(self).outcomes().len(),
        ensures
            final(self).outcomes() == old(self).outcomes().update(i as int, Some(succeeded)),
    {
        self.outcomes.set(i, Some(succeeded));
    }

    /// Whether the fan-out is over: only once every call came back.
    pub fn finished(&self) -> (r: bool)
        ensures
            r == all_settled(self.outcomes()),
    {
        let mut i: usize = 0;
        while i < self.outcomes.len()
            invariant
                i <= self.outcomes@.len(),
                forall|k: int| 0 <= k < i ==> (#[trigger] self.outcomes@[k]).is_some(),
            decreases self.outcomes@.len() - i,
        {
            if self.outcomes[i].is_none() {
                return false;
            }
            i = i + 1;
        }
        true
    }

    /// The number of calls that failed.
    pub fn failures(&self) -> (n: usize)
        ensures
            n == failed_count(self.outcomes()),
    {
        let mut n: usize = 0;
        let mut i: usize = 0;
        while i < self.outcomes.len()
            invariant
                i <= self.outcomes@.len(),
                n == failed_count(self.outcomes@.take(i as int)),
                n <= i,
            decreases self.outcomes@.len() - i,
        {
            assert(self.outcomes@.take(i + 1).drop_last() =~= self.outcomes@.take(i as int));
            if self.outcomes[i] == Some(false) {
                n = n + 1;
            }
            i = i + 1;
        }
        assert(self.outcomes@.take(self.outcomes@.len() as int) =~= self.outcomes@);
        n
    }
}

/// A failed call changes the record of no other call, and the fan-out is not
/// over while another call is still out: a failure neither cancels, settles nor
/// marks failed the call to any other recipient.
pub proof fn lemma_failure_isolated(o: Seq<Option<bool>>, i: int, j: int)
    requires
        0 <= i < o.len(),
        0 <= j < o.len(),
        i != j,
    ensures
        o.update(i, Some(false))[j] == o[j],
        o[j].is_none() ==> !all_settled(o.update(i, Some(false))),
{
    if o[j].is_none() {
        assert(o.update(i, Some(false))[j].is_none());
    }
}

/// How many calls are recorded as failed.
pub open spec fn failed_count(o: Seq<Option<bool>>) -> nat
    decreases o.len(),
{
    if o.len() == 0 {
        0
    } else {
        failed_count(o.drop_last()) + if o.last() == Some(false) {
            1nat
        } else {
            0nat
        }
    }
}

} // verus!
