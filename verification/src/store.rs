//! Captured requests and their ids: ids continue after the largest stored
//! one, so they stay unique across restarts.
use vstd::prelude::*;

verus! {

/// A request as captured for replay.
#[derive(Debug, Clone)]
pub struct StoredRequest {
    pub id: u64,
    pub port: u16,
    pub method: String,
    pub path: String,
    /// Everything up to and including the trailing `\r\n\r\n`.
    pub raw_headers: String,
    /// Request body, base64-encoded to preserve binary payloads.
    pub body_b64: String,
}

impl StoredRequest {
    /// A field-by-field copy.
    pub fn copy(&self) -> (r: StoredRequest)
        ensures
            r == *self,
    {
        StoredRequest {
            id: self.id,
            port: self.port,
            method: self.method.clone(),
            path: self.path.clone(),
            raw_headers: self.raw_headers.clone(),
            body_b64: self.body_b64.clone(),
        }
    }
}

/// Source of request ids.
pub struct IdCounter {
    next: u64,
}

/// The largest of `ids`, or 0 when there are none.
pub open spec fn max_id(ids: Seq<u64>) -> nat
    decreases ids.len(),
{
    if ids.len() == 0 {
        0
    } else if ids.last() as nat > max_id(ids.drop_last()) {
        ids.last() as nat
    } else {
        max_id(ids.drop_last())
    }
}

proof fn lemma_max_id(ids: Seq<u64>)
    ensures
        forall|i: int| 0 <= i < ids.len() ==> ids[i] <= max_id(ids),
    decreases ids.len(),
{
    if ids.len() > 0 {
        lemma_max_id(ids.drop_last());
        assert forall|i: int| 0 <= i < ids.len() implies ids[i] <= max_id(ids) by {
            if i < ids.len() - 1 {
                assert(ids[i] == ids.drop_last()[i]);
            }
        }
    }
}

impl IdCounter {
    /// The id the next request gets.
    pub closed spec fn peek(&self) -> u64 {
        self.next
    }

    /// Ids start at 1.
    pub fn new() -> (r: IdCounter)
        ensures
            r.peek() == 1,
    {
        IdCounter { next: 1 }
    }
}

/// Continues the ids after the largest stored one (after 0 when none is
/// stored). An id of `u64::MAX` leaves no next id: such inputs are left out.
pub fn init(counter: &mut IdCounter, stored_ids: &[u64])
    requires
        forall|i: int| 0 <= i < stored_ids@.len() ==> stored_ids@[i] < u64::MAX,
    ensures
        final(counter).peek() == max_id(stored_ids@) + 1,
        forall|i: int| 0 <= i < stored_ids@.len() ==> stored_ids@[i] < final(counter).peek(),
{
    let n = stored_ids.len();
    let mut max: u64 = 0;
    let mut i: usize = 0;
    proof {
        lemma_max_id(stored_ids@);
    }
    while i < n
        invariant
            n == stored_ids@.len(),
            i <= n,
            max as nat == max_id(stored_ids@.subrange(0, i as int)),
            max < u64::MAX,
            forall|k: int| 0 <= k < n ==> stored_ids@[k] < u64::MAX,
        decreases n - i,
    {
        let ghost pre = stored_ids@.subrange(0, i as int);
        assert(stored_ids@.subrange(0, i + 1).drop_last() =~= pre);
        if stored_ids[i] > max {
            max = stored_ids[i];
        }
        i = i + 1;
    }
    assert(stored_ids@.subrange(0, n as int) =~= stored_ids@);
    counter.next = max + 1;
}

/// The counter after one id is handed out: one more, wrapping at `u64::MAX`.
pub open spec fn next_counter(c: u64) -> u64 {
    if c == u64::MAX {
        0
    } else {
        (c + 1) as u64
    }
}

/// The ids `k` successive `next_id` calls hand out from counter `c`, in order.
pub open spec fn ids_handed_out(c: u64, k: nat) -> Seq<u64>
    decreases k,
{
    if k == 0 {
        Seq::empty()
    } else {
        seq![c] + ids_handed_out(next_counter(c), (k - 1) as nat)
    }
}

/// The counter after `k` successive `next_id` calls from counter `c`.
pub open spec fn counter_after(c: u64, k: nat) -> u64
    decreases k,
{
    if k == 0 {
        c
    } else {
        counter_after(next_counter(c), (k - 1) as nat)
    }
}

/// Successive ids count up: from counter `c`, as long as the counter does not
/// wrap, `k` calls hand out `c`, `c + 1`, ..., `c + k - 1`, no two alike,
/// and leave the counter at `c + k`.
pub proof fn lemma_ids_count_up(c: u64, k: nat)
    requires
        c + k <= u64::MAX,
    ensures
        ids_handed_out(c, k).len() == k,
        forall|i: int| 0 <= i < k ==> ids_handed_out(c, k)[i] == c + i,
        forall|i: int, j: int| 0 <= i < j < k ==> ids_handed_out(c, k)[i] != ids_handed_out(c, k)[j],
        counter_after(c, k) == c + k,
    decreases k,
{
    if k > 0 {
        lemma_ids_count_up(next_counter(c), (k - 1) as nat);
        let rest = ids_handed_out(next_counter(c), (k - 1) as nat);
        assert forall|i: int| 0 <= i < k implies ids_handed_out(c, k)[i] == c + i by {
            if i > 0 {
                assert(ids_handed_out(c, k)[i] == rest[i - 1]);
            }
        }
    }
}

/// Hands out the next id; ids count up by one (wrapping at `u64::MAX`).
pub fn next_id(counter: &mut IdCounter) -> (r: u64)
    ensures
        r == old(counter).peek(),
        final(counter).peek() == next_counter(old(counter).peek()),
{
    let r = counter.next;
    counter.next = if counter.next == u64::MAX {
        0
    } else {
        counter.next + 1
    };
    r
}

/// The first captured request with this id.
pub fn find(records: &[StoredRequest], id: u64) -> (r: Option<StoredRequest>)
    ensures
        r is None <==> forall|i: int| 0 <= i < records@.len() ==> records@[i].id != id,
        r matches Some(x) ==> exists|i: int|
            0 <= i < records@.len() && records@[i] == x && x.id == id && forall|j: int|
                0 <= j < i ==> records@[j].id != id,
{
    let n = records.len();
    let mut i: usize = 0;
    while i < n
        invariant
            n == records@.len(),
            i <= n,
            forall|j: int| 0 <= j < i ==> records@[j].id != id,
        decreases n - i,
    {
        if records[i].id == id {
            return Some(records[i].copy());
        }
        i = i + 1;
    }
    None
}

/// Ids handed out after a restart never repeat: `init` puts the counter just
/// above the largest stored id, and each `next_id` hands out the counter and
/// moves it up by one, so until the counter wraps at `u64::MAX` every id handed
/// out is above every stored id, and no two of them are equal.
pub proof fn lemma_ids_fresh_after_restart(stored: Seq<u64>, start: u64, handed_out: Seq<u64>)
    requires
        start == max_id(stored) + 1,
        forall|i: int| 0 <= i < handed_out.len() ==> handed_out[i] == start + i,
    ensures
        forall|i: int, j: int|
            0 <= i < handed_out.len() && 0 <= j < stored.len() ==> stored[j] < handed_out[i],
        forall|i: int, k: int|
            0 <= i < k < handed_out.len() ==> handed_out[i] != handed_out[k],
{
    lemma_max_id(stored);
    assert forall|i: int, j: int|
        0 <= i < handed_out.len() && 0 <= j < stored.len() implies stored[j] < handed_out[i] by {
        assert(handed_out[i] == start + i);
    }
    assert forall|i: int, k: int| 0 <= i < k < handed_out.len() implies handed_out[i]
        != handed_out[k] by {
        assert(handed_out[i] == start + i);
        assert(handed_out[k] == start + k);
    }
}

} // verus!
