//! The relay server's rules: per-IP connection rate limiting and tunnel
//! counting, admission of a new tunnel, the choice of its subdomain, and the
//! routing of public HTTP requests by `Host`.
use vstd::prelude::*;
use vstd::string::StringSliceAdditionalSpecFns;
use vstd::utf8::{
    decode_utf8, encode_scalar, encode_utf8, encode_utf8_decode_utf8, encode_utf8_valid_utf8,
    valid_utf8,
};
use crate::proxy::all_ascii;
use crate::protocol::{opt_view, proof_accepted, secret_accepted, ControlMsg};
use crate::text::{append_bytes, decimal, lemma_ascii_valid, lemma_utf8_split, push_decimal, string_of};

verus! {

/// Most tunnels the server holds at once.
pub const MAX_TUNNELS_TOTAL: usize = 200;

/// Most tunnels one IP address may hold at once.
pub const MAX_TUNNELS_PER_IP: usize = 5;

/// Most control connections one IP address may open per `RATE_WINDOW_MS`.
pub const MAX_CONNECTS_PER_MINUTE: usize = 15;

/// Length of the rate-limiting window, in milliseconds.
pub const RATE_WINDOW_MS: u64 = 60000;

/// Connection history and tunnel count of one IP address. Timestamps are
/// milliseconds on a clock that does not go backwards.
pub struct IpState {
    recent_connects: std::collections::VecDeque<u64>,
    active_tunnels: usize,
}

/// `q` without its leading timestamps that are older than the window ending at `now`.
pub open spec fn drop_stale(q: Seq<u64>, now: u64) -> Seq<u64>
    decreases q.len(),
{
    if q.len() > 0 && q[0] + RATE_WINDOW_MS < now {
        drop_stale(q.drop_first(), now)
    } else {
        q
    }
}

/// Timestamps in order of arrival.
pub open spec fn sorted(q: Seq<u64>) -> bool {
    forall|i: int, j: int| 0 <= i <= j < q.len() ==> q[i] <= q[j]
}

/// Timestamps of `q` inside the window ending at `now`.
pub open spec fn in_window(q: Seq<u64>, now: u64) -> Seq<u64> {
    q.filter(|t: u64| t + RATE_WINDOW_MS >= now)
}

/// One admission decision on the history `q` at `now`: stale connections
/// are forgotten, and the attempt is admitted (and remembered) when fewer
/// than `MAX_CONNECTS_PER_MINUTE` remain. The history left and the decision.
pub open spec fn admit_step(q: Seq<u64>, now: u64) -> (Seq<u64>, bool) {
    let d = drop_stale(q, now);
    if d.len() < MAX_CONNECTS_PER_MINUTE {
        (d.push(now), true)
    } else {
        (d, false)
    }
}

/// The history of an address after its first `n` attempts at `times`,
/// starting from none.
pub open spec fn history_after(times: Seq<u64>, n: nat) -> Seq<u64>
    decreases n,
{
    if n == 0 || n > times.len() {
        Seq::empty()
    } else {
        admit_step(history_after(times, (n - 1) as nat), times[n - 1]).0
    }
}

/// Whether attempt `k` (counting from 0) of an address, with attempts at
/// `times`, is admitted.
pub open spec fn admitted_at(times: Seq<u64>, k: int) -> bool {
    0 <= k < times.len() && admit_step(history_after(times, k as nat), times[k]).1
}

/// How many of the first `n` attempts were admitted at a time inside the
/// window ending at `now`.
pub open spec fn admitted_before(times: Seq<u64>, n: int, now: int) -> nat
    decreases n,
{
    if n <= 0 {
        0
    } else {
        admitted_before(times, n - 1, now) + (if admitted_at(times, n - 1) && times[n - 1]
            + RATE_WINDOW_MS >= now {
            1nat
        } else {
            0nat
        })
    }
}

/// How many of the first `n` attempts were admitted at a time from `lo` to `hi`.
pub open spec fn admitted_between(times: Seq<u64>, n: int, lo: int, hi: int) -> nat
    decreases n,
{
    if n <= 0 {
        0
    } else {
        admitted_between(times, n - 1, lo, hi) + (if admitted_at(times, n - 1) && lo <= times[n
            - 1] <= hi {
            1nat
        } else {
            0nat
        })
    }
}

impl IpState {
    /// An address never remembers more connections than the limit admits.
    #[verifier::type_invariant]
    spec fn history_bounded(self) -> bool {
        self.recent_connects@.len() <= MAX_CONNECTS_PER_MINUTE
    }

    /// Connection timestamps still remembered, oldest first.
    pub closed spec fn recent(&self) -> Seq<u64> {
        self.recent_connects@
    }

    /// Tunnels this address holds.
    pub closed spec fn active(&self) -> nat {
        self.active_tunnels as nat
    }

    /// No connections remembered, no tunnels.
    pub fn new() -> (r: IpState)
        ensures
            r.recent() == Seq::<u64>::empty(),
            r.active() == 0,
    {
        IpState { recent_connects: std::collections::VecDeque::new(), active_tunnels: 0 }
    }

    /// Tunnels this address holds.
    pub fn active_tunnels(&self) -> (r: usize)
        ensures
            r == self.active(),
    {
        self.active_tunnels
    }

    /// Records a connection attempt at `now`: forgets connections older than
    /// the window, then admits the attempt (and remembers it) when fewer than
    /// `MAX_CONNECTS_PER_MINUTE` remain.
    pub fn admit_connect(&mut self, now: u64) -> (r: bool)
        ensures
            r == (drop_stale(old(self).recent(), now).len() < MAX_CONNECTS_PER_MINUTE),
            r ==> final(self).recent() == drop_stale(old(self).recent(), now).push(now),
            !r ==> final(self).recent() == drop_stale(old(self).recent(), now),
            final(self).active() == old(self).active(),
            final(self).recent().len() <= MAX_CONNECTS_PER_MINUTE,
            (final(self).recent(), r) == admit_step(old(self).recent(), now),
    {
        proof {
            use_type_invariant(&*self);
        }
        let mut q: std::collections::VecDeque<u64> = std::collections::VecDeque::new();
        std::mem::swap(&mut q, &mut self.recent_connects);
        loop
            invariant
                drop_stale(old(self).recent(), now) == drop_stale(q@, now),
                q@.len() <= MAX_CONNECTS_PER_MINUTE,
                self.active_tunnels == old(self).active_tunnels,
            ensures
                drop_stale(old(self).recent(), now) == q@,
                q@.len() <= MAX_CONNECTS_PER_MINUTE,
                self.active_tunnels == old(self).active_tunnels,
            decreases q@.len(),
        {
            if q.len() == 0 {
                break;
            }
            let front = q[0];
            if front >= now || now - front <= RATE_WINDOW_MS {
                break;
            }
            q.pop_front();
        }
        if q.len() >= MAX_CONNECTS_PER_MINUTE {
            self.recent_connects = q;
            return false;
        }
        q.push_back(now);
        self.recent_connects = q;
        true
    }

    /// One more tunnel for this address.
    pub fn open_tunnel(&mut self)
        requires
            old(self).active() < usize::MAX,
        ensures
            final(self).active() == old(self).active() + 1,
            final(self).recent() == old(self).recent(),
    {
        proof {
            use_type_invariant(&*self);
        }
        self.active_tunnels = self.active_tunnels + 1;
    }

    /// One tunnel fewer for this address; the count never drops below zero.
    pub fn close_tunnel(&mut self)
        ensures
            final(self).active() == count_after_close(old(self).active()),
            final(self).recent() == old(self).recent(),
    {
        proof {
            use_type_invariant(&*self);
        }
        if self.active_tunnels > 0 {
            self.active_tunnels = self.active_tunnels - 1;
        }
    }
}

proof fn lemma_drop_stale_sorted(q: Seq<u64>, now: u64)
    requires
        sorted(q),
    ensures
        sorted(drop_stale(q, now)),
        drop_stale(q, now) == in_window(q, now),
        drop_stale(q, now).len() <= q.len(),
    decreases q.len(),
{
    reveal_with_fuel(Seq::filter, 1);
    if q.len() > 0 && q[0] + RATE_WINDOW_MS < now {
        lemma_drop_stale_sorted(q.drop_first(), now);
        assert(in_window(q, now) =~= in_window(q.drop_first(), now)) by {
            lemma_filter_drop_first(q, now);
        }
    } else if q.len() > 0 {
        assert forall|i: int| 0 <= i < q.len() implies q[i] + RATE_WINDOW_MS >= now by {
            assert(q[0] <= q[i]);
        }
        lemma_filter_all(q, now);
    } else {
        assert(in_window(q, now) =~= q);
    }
}

proof fn lemma_filter_drop_first(q: Seq<u64>, now: u64)
    requires
        q.len() > 0,
        q[0] + RATE_WINDOW_MS < now,
    ensures
        in_window(q, now) == in_window(q.drop_first(), now),
{
    let f = |t: u64| t + RATE_WINDOW_MS >= now;
    assert(q =~= seq![q[0]] + q.drop_first());
    q.drop_first().lemma_filter_prepend(q[0], f);
    assert(Seq::<u64>::empty() + q.drop_first().filter(f) =~= q.drop_first().filter(f));
}

proof fn lemma_filter_all(q: Seq<u64>, now: u64)
    requires
        forall|i: int| 0 <= i < q.len() ==> q[i] + RATE_WINDOW_MS >= now,
    ensures
        in_window(q, now) == q,
    decreases q.len(),
{
    reveal_with_fuel(Seq::filter, 1);
    if q.len() > 0 {
        lemma_filter_all(q.drop_last(), now);
        assert(q.drop_last().push(q.last()) =~= q);
    } else {
        assert(in_window(q, now) =~= q);
    }
}

/// The connection rate limit holds the history sorted and short, and decides
/// by the window: when the remembered timestamps are in order and none is
/// later than `now`, an attempt is admitted exactly when fewer than
/// `MAX_CONNECTS_PER_MINUTE` earlier ones fall inside the window, and the
/// history stays in order and never longer than the limit.
pub proof fn lemma_rate_limit(q: Seq<u64>, now: u64)
    requires
        sorted(q),
        q.len() <= MAX_CONNECTS_PER_MINUTE,
        forall|i: int| 0 <= i < q.len() ==> q[i] <= now,
    ensures
        drop_stale(q, now) == in_window(q, now),
        (drop_stale(q, now).len() < MAX_CONNECTS_PER_MINUTE) ==> sorted(
            drop_stale(q, now).push(now),
        ) && drop_stale(q, now).push(now).len() <= MAX_CONNECTS_PER_MINUTE,
        sorted(drop_stale(q, now)) && drop_stale(q, now).len() <= MAX_CONNECTS_PER_MINUTE,
{
    lemma_drop_stale_sorted(q, now);
    lemma_drop_stale_suffix(q, now);
    let d = drop_stale(q, now);
    assert forall|i: int, j: int| 0 <= i <= j < d.push(now).len() implies d.push(now)[i]
        <= d.push(now)[j] by {
        if j == d.len() && i < d.len() {
            assert(d[i] == q[i + q.len() - d.len()]);
        }
    }
}

/// Timestamps of `q` inside the window ending at `now`, counted.
spec fn window_count(q: Seq<u64>, now: int) -> nat
    decreases q.len(),
{
    if q.len() == 0 {
        0
    } else {
        window_count(q.drop_last(), now) + (if q.last() + RATE_WINDOW_MS >= now {
            1nat
        } else {
            0nat
        })
    }
}

proof fn lemma_window_count_front(q: Seq<u64>, now: int)
    requires
        q.len() > 0,
    ensures
        window_count(q, now) == window_count(q.drop_first(), now) + (if q[0] + RATE_WINDOW_MS
            >= now {
            1nat
        } else {
            0nat
        }),
    decreases q.len(),
{
    if q.len() > 1 {
        lemma_window_count_front(q.drop_last(), now);
        assert(q.drop_last().drop_first() =~= q.drop_first().drop_last());
        assert(q.drop_last()[0] == q[0]);
        assert(q.drop_first().last() == q.last());
        assert(window_count(q.drop_first(), now) == window_count(q.drop_first().drop_last(), now)
            + (if q.drop_first().last() + RATE_WINDOW_MS >= now {
            1nat
        } else {
            0nat
        }));
    } else {
        assert(q.drop_first().len() == 0);
        assert(q.drop_last().len() == 0);
        assert(q.last() == q[0]);
        assert(window_count(q.drop_first(), now) == 0);
        assert(window_count(q.drop_last(), now) == 0);
    }
}

proof fn lemma_window_count_all(q: Seq<u64>, now: int)
    requires
        forall|i: int| 0 <= i < q.len() ==> q[i] + RATE_WINDOW_MS >= now,
    ensures
        window_count(q, now) == q.len(),
    decreases q.len(),
{
    if q.len() > 0 {
        lemma_window_count_all(q.drop_last(), now);
    }
}

proof fn lemma_drop_stale_count(q: Seq<u64>, now: u64)
    requires
        sorted(q),
    ensures
        drop_stale(q, now).len() == window_count(q, now as int),
    decreases q.len(),
{
    if q.len() > 0 && q[0] + RATE_WINDOW_MS < now {
        lemma_window_count_front(q, now as int);
        lemma_drop_stale_count(q.drop_first(), now);
    } else if q.len() > 0 {
        assert forall|i: int| 0 <= i < q.len() implies q[i] + RATE_WINDOW_MS >= now by {
            assert(q[0] <= q[i]);
        }
        lemma_window_count_all(q, now as int);
    }
}

proof fn lemma_drop_stale_keeps_count(q: Seq<u64>, t: u64, now: int)
    requires
        t <= now,
    ensures
        window_count(drop_stale(q, t), now) == window_count(q, now),
    decreases q.len(),
{
    if q.len() > 0 && q[0] + RATE_WINDOW_MS < t {
        lemma_window_count_front(q, now);
        lemma_drop_stale_keeps_count(q.drop_first(), t, now);
    }
}

proof fn lemma_history_step(times: Seq<u64>, k: nat)
    requires
        sorted(times),
        k <= times.len(),
    ensures
        sorted(history_after(times, k)),
        k > 0 ==> forall|i: int|
            0 <= i < history_after(times, k).len() ==> history_after(times, k)[i] <= times[k - 1],
        k > 0 ==> forall|now: int|
            times[k - 1] <= now ==> window_count(history_after(times, k), now)
                == admitted_before(times, k as int, now),
    decreases k,
{
    if k > 0 {
        let j = (k - 1) as nat;
        lemma_history_step(times, j);
        let h = history_after(times, j);
        let t = times[j as int];
        let d = drop_stale(h, t);
        lemma_drop_stale_sorted(h, t);
        lemma_drop_stale_suffix(h, t);
        assert forall|i: int| 0 <= i < d.len() implies d[i] <= t by {
            assert(d[i] == h[i + h.len() - d.len()]);
            if j > 0 {
                assert(times[j - 1] <= times[j as int]);
            }
        }
        let h2 = history_after(times, k);
        assert(h2 == admit_step(h, t).0);
        if d.len() < MAX_CONNECTS_PER_MINUTE {
            assert(h2 == d.push(t));
            assert forall|a: int, b: int| 0 <= a <= b < h2.len() implies h2[a] <= h2[b] by {
                if b < d.len() {
                    assert(h2[a] == d[a] && h2[b] == d[b]);
                } else {
                    assert(h2[b] == t);
                    if a < d.len() {
                        assert(h2[a] == d[a]);
                    }
                }
            }
            assert forall|i: int| 0 <= i < h2.len() implies h2[i] <= times[k - 1] by {
                if i < d.len() {
                    assert(h2[i] == d[i]);
                }
            }
        } else {
            assert(h2 == d);
        }
        assert forall|now: int| times[k - 1] <= now implies window_count(h2, now)
            == admitted_before(times, k as int, now) by {
            lemma_drop_stale_keeps_count(h, t, now);
            assert(window_count(d, now) == window_count(h, now));
            if j > 0 {
                assert(times[j - 1] <= times[j as int]);
                assert(window_count(h, now) == admitted_before(times, j as int, now));
            } else {
                assert(h.len() == 0);
                assert(window_count(h, now) == 0);
            }
            assert(admitted_at(times, j as int) == (d.len() < MAX_CONNECTS_PER_MINUTE));
            assert(admitted_before(times, k as int, now) == admitted_before(times, j as int, now)
                + (if admitted_at(times, j as int) && times[j as int] + RATE_WINDOW_MS >= now {
                1nat
            } else {
                0nat
            }));
            if d.len() < MAX_CONNECTS_PER_MINUTE {
                assert(h2.drop_last() =~= d);
                assert(h2.last() == t);
                assert(window_count(h2, now) == window_count(d, now) + (if t + RATE_WINDOW_MS
                    >= now {
                    1nat
                } else {
                    0nat
                }));
            }
        }
    }
}

proof fn lemma_between_within(times: Seq<u64>, m: int, lo: int, hi: int, now: int)
    requires
        now <= lo + RATE_WINDOW_MS,
    ensures
        admitted_between(times, m, lo, hi) <= admitted_before(times, m, now),
    decreases m,
{
    if m > 0 {
        lemma_between_within(times, m - 1, lo, hi, now);
    }
}

/// Rate limiting over a run of attempts from one address, made at `times` in
/// order of time and starting from no history: an attempt is admitted exactly
/// when fewer than `MAX_CONNECTS_PER_MINUTE` of the earlier admitted ones lie
/// in the window ending at it, and no stretch of `RATE_WINDOW_MS` holds more
/// than `MAX_CONNECTS_PER_MINUTE` admitted attempts.
pub proof fn lemma_rate_window(times: Seq<u64>)
    requires
        sorted(times),
    ensures
        forall|k: int|
            0 <= k < times.len() ==> (#[trigger] admitted_at(times, k) <==> admitted_before(
                times,
                k,
                times[k] as int,
            ) < MAX_CONNECTS_PER_MINUTE),
        forall|lo: int, hi: int|
            hi <= lo + RATE_WINDOW_MS ==> #[trigger] admitted_between(
                times,
                times.len() as int,
                lo,
                hi,
            ) <= MAX_CONNECTS_PER_MINUTE,
{
    assert forall|k: int| 0 <= k < times.len() implies (#[trigger] admitted_at(times, k)
        <==> admitted_before(times, k, times[k] as int) < MAX_CONNECTS_PER_MINUTE) by {
        lemma_rate_step(times, k);
    }
    assert forall|lo: int, hi: int| hi <= lo + RATE_WINDOW_MS implies #[trigger] admitted_between(
        times,
        times.len() as int,
        lo,
        hi,
    ) <= MAX_CONNECTS_PER_MINUTE by {
        lemma_window_bound(times, times.len() as int, lo, hi);
    }
}

proof fn lemma_rate_step(times: Seq<u64>, k: int)
    requires
        sorted(times),
        0 <= k < times.len(),
    ensures
        admitted_at(times, k) <==> admitted_before(times, k, times[k] as int)
            < MAX_CONNECTS_PER_MINUTE,
{
    lemma_history_step(times, k as nat);
    let h = history_after(times, k as nat);
    lemma_drop_stale_count(h, times[k]);
    if k > 0 {
        assert(times[k - 1] <= times[k]);
    }
}

proof fn lemma_window_bound(times: Seq<u64>, n: int, lo: int, hi: int)
    requires
        sorted(times),
        n <= times.len(),
        hi <= lo + RATE_WINDOW_MS,
    ensures
        admitted_between(times, n, lo, hi) <= MAX_CONNECTS_PER_MINUTE,
    decreases n,
{
    if n > 0 {
        lemma_window_bound(times, n - 1, lo, hi);
        if admitted_at(times, n - 1) && lo <= times[n - 1] <= hi {
            lemma_rate_step(times, n - 1);
            lemma_between_within(times, n - 1, lo, hi, times[n - 1] as int);
        }
    }
}

proof fn lemma_drop_stale_suffix(q: Seq<u64>, now: u64)
    ensures
        drop_stale(q, now).len() <= q.len(),
        drop_stale(q, now) == q.subrange(q.len() - drop_stale(q, now).len(), q.len() as int),
    decreases q.len(),
{
    if q.len() > 0 && q[0] + RATE_WINDOW_MS < now {
        lemma_drop_stale_suffix(q.drop_first(), now);
        let d = drop_stale(q, now);
        assert(q.drop_first().subrange(q.len() - 1 - d.len(), q.len() - 1) =~= q.subrange(
            q.len() - d.len(),
            q.len() as int,
        ));
    } else {
        assert(q.subrange(0, q.len() as int) =~= q);
    }
}

/// An address's tunnel count after one of its tunnels closes: one fewer,
/// never below zero.
pub open spec fn count_after_close(n: nat) -> nat {
    if n > 0 {
        (n - 1) as nat
    } else {
        0
    }
}

/// Opening a tunnel and then closing one leaves an address's count as it was.
pub proof fn lemma_open_close_restores(before: IpState, opened: IpState, closed: IpState)
    requires
        opened.active() == before.active() + 1,
        closed.active() == count_after_close(opened.active()),
    ensures
        closed.active() == before.active(),
{
}

/// Why a tunnel request is refused.
pub enum Refusal {
    /// The HMAC proof did not match the server's secret.
    InvalidSecret,
    /// The address already holds `MAX_TUNNELS_PER_IP` tunnels.
    PerIpLimit,
    /// The server already holds `MAX_TUNNELS_TOTAL` tunnels.
    AtCapacity,
}

/// The checks made before a subdomain is chosen, in order: the secret, the
/// per-address cap, the global cap.
pub open spec fn admission_spec(secret_ok: bool, ip_active: nat, total_tunnels: nat) -> Option<
    Refusal,
> {
    if !secret_ok {
        Some(Refusal::InvalidSecret)
    } else if ip_active >= MAX_TUNNELS_PER_IP {
        Some(Refusal::PerIpLimit)
    } else if total_tunnels >= MAX_TUNNELS_TOTAL {
        Some(Refusal::AtCapacity)
    } else {
        None
    }
}

/// Whether a tunnel request passes the checks (see `admission_spec`), and if
/// not, why.
pub fn admission(secret_ok: bool, ip_active: usize, total_tunnels: usize) -> (r: Option<Refusal>)
    ensures
        r == admission_spec(secret_ok, ip_active as nat, total_tunnels as nat),
{
    if !secret_ok {
        Some(Refusal::InvalidSecret)
    } else if ip_active >= MAX_TUNNELS_PER_IP {
        Some(Refusal::PerIpLimit)
    } else if total_tunnels >= MAX_TUNNELS_TOTAL {
        Some(Refusal::AtCapacity)
    } else {
        None
    }
}

/// The caps hold: when a tunnel passes the checks with its address holding
/// `before.active()` tunnels and the server `total_tunnels`, then once it
/// opens the address holds at most `MAX_TUNNELS_PER_IP` and the server at
/// most `MAX_TUNNELS_TOTAL`.
pub proof fn lemma_caps_hold(secret_ok: bool, before: IpState, after: IpState, total_tunnels: nat)
    requires
        admission_spec(secret_ok, before.active(), total_tunnels) is None,
        after.active() == before.active() + 1,
    ensures
        after.active() <= MAX_TUNNELS_PER_IP,
        total_tunnels + 1 <= MAX_TUNNELS_TOTAL,
{
}

/// The text sent to the client for a refusal.
pub fn refusal_message(r: &Refusal) -> (m: String)
    ensures
        *r is InvalidSecret ==> m@ == "invalid secret"@,
        *r is PerIpLimit ==> m@ == "max 5 tunnels per IP"@,
        *r is AtCapacity ==> m@ == "server at capacity, try again later"@,
{
    match r {
        Refusal::InvalidSecret => "invalid secret".to_owned(),
        Refusal::PerIpLimit => "max 5 tunnels per IP".to_owned(),
        Refusal::AtCapacity => "server at capacity, try again later".to_owned(),
    }
}

/// The text sent when the chosen subdomain already has a tunnel.
pub fn subdomain_in_use_message(subdomain: &str) -> (m: String)
    ensures
        m@ == "subdomain '"@ + subdomain@ + "' already in use"@,
{
    let mut m = "subdomain '".to_owned();
    m.append(subdomain);
    m.append("' already in use");
    m
}

/// Unicode `Alphabetic` or `Numeric`, as `char::is_alphanumeric` decides.
pub uninterp spec fn unicode_alphanumeric(c: char) -> bool;

/// ASCII letters and digits.
pub open spec fn ascii_alphanumeric(c: char) -> bool {
    ('a' <= c <= 'z') || ('A' <= c <= 'Z') || ('0' <= c <= '9')
}

/// `char::is_alphanumeric`: the property named `unicode_alphanumeric`. Among
/// ASCII characters it holds exactly of the letters and digits.
#[verifier::external_body]
fn is_alphanumeric(c: char) -> (r: bool)
    ensures
        r == unicode_alphanumeric(c),
        (c as u32) < 128 ==> (r <==> ascii_alphanumeric(c)),
{
    c.is_alphanumeric()
}

/// A requested subdomain is kept when it is not empty, is at most 63 bytes of
/// UTF-8, and holds only alphanumeric characters and `-`.
pub open spec fn subdomain_acceptable(s: Seq<char>) -> bool {
    &&& s.len() > 0
    &&& encode_utf8(s).len() <= 63
    &&& forall|i: int| 0 <= i < s.len() ==> unicode_alphanumeric(#[trigger] s[i]) || s[i] == '-'
}

/// Whether a requested subdomain is kept (see `subdomain_acceptable`).
pub fn requested_subdomain_ok(s: &str) -> (r: bool)
    ensures
        r == subdomain_acceptable(s@),
        all_ascii(s@) ==> (r <==> (s@.len() > 0 && encode_utf8(s@).len() <= 63 && forall|i: int|
            0 <= i < s@.len() ==> ascii_alphanumeric(#[trigger] s@[i]) || s@[i] == '-')),
{
    if s.is_empty() || s.as_bytes().len() > 63 {
        return false;
    }
    let n = s.unicode_len();
    let mut i: usize = 0;
    while i < n
        invariant
            n == s@.len(),
            n > 0,
            encode_utf8(s@).len() <= 63,
            i <= n,
            forall|k: int| 0 <= k < i ==> unicode_alphanumeric(#[trigger] s@[k]) || s@[k] == '-',
            forall|k: int|
                0 <= k < i && (s@[k] as u32) < 128 ==> (unicode_alphanumeric(#[trigger] s@[k])
                    <==> ascii_alphanumeric(s@[k])),
        decreases n - i,
    {
        let c = s.get_char(i);
        let alnum = is_alphanumeric(c);
        if !(alnum || c == '-') {
            return false;
        }
        i = i + 1;
    }
    true
}

/// The lower-case hex digit for a value below 16.
pub open spec fn hex_digit(v: int) -> u8 {
    if v < 10 {
        (48 + v) as u8
    } else {
        (87 + v) as u8
    }
}

/// `x` as eight lower-case hex digits, zero-padded.
pub open spec fn hex8(x: u32) -> Seq<u8> {
    Seq::new(8, |i: int| hex_digit(((x as int) / pow16(7 - i)) % 16))
}

pub open spec fn pow16(k: int) -> int
    decreases k,
{
    if k <= 0 {
        1
    } else {
        16 * pow16(k - 1)
    }
}

/// `format!("{:08x}", x)`.
pub fn hex8_string(x: u32) -> (r: String)
    ensures
        r@ == decode_utf8(hex8(x)),
{
    let mut out: Vec<u8> = Vec::new();
    let mut i: usize = 0;
    let mut div: u32 = 0x1000_0000;
    assert(pow16(7) == 0x1000_0000) by {
        reveal_with_fuel(pow16, 8);
    }
    while i < 8
        invariant
            i <= 8,
            div as int == pow16(7 - i as int) || (i == 8 && div == 0),
            out@.len() == i,
            forall|k: int| 0 <= k < i ==> out@[k] == hex8(x)[k],
            forall|k: int| 0 <= k < i ==> out@[k] <= 0x7f,
        decreases 8 - i,
    {
        assert(pow16(7 - i as int) > 0) by {
            lemma_pow16_pos(7 - i as int);
        }
        let d = (x / div) % 16;
        let c: u8 = if d < 10 {
            48 + d as u8
        } else {
            87 + d as u8
        };
        out.push(c);
        proof {
            assert(hex8(x)[i as int] == hex_digit(((x as int) / pow16(7 - i as int)) % 16));
        }
        if i < 7 {
            assert(pow16(7 - i as int) == 16 * pow16(6 - i as int));
            div = div / 16;
        } else {
            div = 0;
        }
        i = i + 1;
    }
    assert(out@ =~= hex8(x));
    proof {
        lemma_ascii_valid(out@);
    }
    assert(out@.subrange(0, 8) =~= out@);
    string_of(out.as_slice(), 0, 8)
}

proof fn lemma_pow16_pos(k: int)
    ensures
        pow16(k) > 0,
    decreases k,
{
    if k > 0 {
        lemma_pow16_pos(k - 1);
    }
}

/// The subdomain a new tunnel gets: the requested one when acceptable,
/// otherwise `random` as eight hex digits.
pub fn choose_subdomain(requested: Option<&str>, random: u32) -> (r: String)
    ensures
        (requested matches Some(s) && subdomain_acceptable(s@)) ==> r@ == requested.unwrap()@,
        !(requested matches Some(s) && subdomain_acceptable(s@)) ==> r@ == decode_utf8(
            hex8(random),
        ),
{
    match requested {
        Some(s) => {
            if requested_subdomain_ok(s) {
                return s.to_owned();
            }
        },
        None => {},
    }
    hex8_string(random)
}

/// A subdomain for a new tunnel, drawing a random fallback.
pub fn assign_subdomain(requested: Option<&str>) -> (r: String)
    ensures
        (requested matches Some(s) && subdomain_acceptable(s@)) ==> r@ == requested.unwrap()@,
        !(requested matches Some(s) && subdomain_acceptable(s@)) ==> exists|x: u32|
            r@ == decode_utf8(#[trigger] hex8(x)),
{
    let x = crate::codec::random_u32();
    choose_subdomain(requested, x)
}

/// What the server does with the first control message of a new client.
pub enum AuthOutcome {
    /// The message is not `Auth`: the connection is dropped.
    NotAuth,
    /// The tunnel is refused for this reason.
    Refused(Refusal),
    /// The checks passed; the tunnel opens under this subdomain unless
    /// another tunnel already holds it.
    Admitted(String),
}

/// The server's answer to a client's first control message: only `Auth` is
/// taken; its proof is checked against `secret` (see `proof_accepted`), then
/// the per-address and global caps (see `admission`), then the subdomain is
/// chosen (see `assign_subdomain`).
pub fn decide_auth(
    msg: ControlMsg,
    secret: Option<&str>,
    ip_active: usize,
    total_tunnels: usize,
) -> (r: AuthOutcome)
    ensures
        !(msg is Auth) ==> r is NotAuth,
        msg matches ControlMsg::Auth { subdomain, nonce, hmac } ==> ({
            let ok = proof_accepted(
                match secret {
                    Some(s) => Some(s@),
                    None => None,
                },
                nonce@,
                opt_view(hmac),
            );
            &&& !ok ==> r == AuthOutcome::Refused(Refusal::InvalidSecret)
            &&& ok && ip_active >= MAX_TUNNELS_PER_IP ==> r == AuthOutcome::Refused(
                Refusal::PerIpLimit,
            )
            &&& ok && ip_active < MAX_TUNNELS_PER_IP && total_tunnels >= MAX_TUNNELS_TOTAL ==> r
                == AuthOutcome::Refused(Refusal::AtCapacity)
            &&& ok && ip_active < MAX_TUNNELS_PER_IP && total_tunnels < MAX_TUNNELS_TOTAL ==> (
            r matches AuthOutcome::Admitted(sub) && ((subdomain matches Some(req)
                && subdomain_acceptable(req@)) ==> sub@ == subdomain.unwrap()@) && (!(
            subdomain matches Some(req) && subdomain_acceptable(req@)) ==> exists|x: u32|
                sub@ == decode_utf8(#[trigger] hex8(x))))
        }),
{
    match msg {
        ControlMsg::Auth { subdomain, nonce, hmac } => {
            let provided = match &hmac {
                Some(h) => Some(h.as_str()),
                None => None,
            };
            let ok = secret_accepted(secret, nonce.as_str(), provided);
            match admission(ok, ip_active, total_tunnels) {
                Some(refusal) => AuthOutcome::Refused(refusal),
                None => {
                    let requested = match &subdomain {
                        Some(x) => Some(x.as_str()),
                        None => None,
                    };
                    AuthOutcome::Admitted(assign_subdomain(requested))
                },
            }
        },
        _ => AuthOutcome::NotAuth,
    }
}

/// The server's answer once a tunnel has passed its checks: when another
/// tunnel already holds the subdomain (`taken`), the refusal naming it;
/// otherwise `AuthOk` with the tunnel's public host `subdomain.domain`.
pub fn tunnel_reply(subdomain: &str, domain: &str, taken: bool) -> (r: ControlMsg)
    ensures
        taken ==> (r matches ControlMsg::Error { message } && message@ == "subdomain '"@
            + subdomain@ + "' already in use"@),
        !taken ==> (r matches ControlMsg::AuthOk { subdomain: s, url } && s@ == subdomain@ && url@
            == subdomain@ + seq!['.'] + domain@),
{
    if taken {
        ControlMsg::Error { message: subdomain_in_use_message(subdomain) }
    } else {
        ControlMsg::AuthOk { subdomain: subdomain.to_owned(), url: tunnel_url(subdomain, domain) }
    }
}

/// The public host of a tunnel: `subdomain.domain`.
pub fn tunnel_url(subdomain: &str, domain: &str) -> (r: String)
    ensures
        r@ == subdomain@ + seq!['.'] + domain@,
{
    let mut r = subdomain.to_owned();
    let dot = ".";
    proof {
        reveal_strlit(".");
    }
    r.append(dot);
    r.append(domain);
    r
}

/// Where a public HTTP request goes.
pub enum Route {
    /// The bare domain, path `/install.sh`: serve the install script.
    Install,
    /// The bare domain, any other path: redirect to the project page.
    Redirect,
    /// A subdomain of the domain: forward to that tunnel.
    Tunnel(String),
    /// Neither the domain nor one of its subdomains.
    Foreign,
}

/// Whether `host` ends with `.domain`, as bytes.
pub open spec fn has_domain_suffix(host: Seq<u8>, domain: Seq<u8>) -> bool {
    &&& host.len() >= domain.len() + 1
    &&& host[host.len() - domain.len() - 1] == 46u8
    &&& host.subrange(host.len() - domain.len(), host.len() as int) == domain
}

/// Routes a request for `host` and `path` on a server for `domain`.
#[verifier::loop_isolation(false)]
pub fn route(host: &str, path: &str, domain: &str) -> (r: Route)
    ensures
        host@ == domain@ ==> (path@ == "/install.sh"@ ==> r is Install) && (path@
            != "/install.sh"@ ==> r is Redirect),
        host@ != domain@ && has_domain_suffix(encode_utf8(host@), encode_utf8(domain@)) ==> (r matches Route::Tunnel(
            sub,
        ) && sub@ == decode_utf8(
            encode_utf8(host@).subrange(
                0,
                encode_utf8(host@).len() - encode_utf8(domain@).len() - 1,
            ),
        )),
        host@ != domain@ && !has_domain_suffix(encode_utf8(host@), encode_utf8(domain@)) ==> r is Foreign,
{
    if crate::codec::str_eq(host, domain) {
        if crate::codec::str_eq(path, "/install.sh") {
            return Route::Install;
        }
        return Route::Redirect;
    }
    let h = host.as_bytes();
    let d = domain.as_bytes();
    let hl = h.len();
    let dl = d.len();
    if hl < dl || hl - dl < 1 || h[hl - dl - 1] != 46 {
        return Route::Foreign;
    }
    let mut i: usize = 0;
    while i < dl
        invariant
            hl == h@.len(),
            dl == d@.len(),
            hl >= dl + 1,
            i <= dl,
            forall|k: int| 0 <= k < i ==> h@[hl - dl + k] == d@[k],
        decreases dl - i,
    {
        if h[hl - dl + i] != d[i] {
            assert(h@.subrange(hl - dl, hl as int)[i as int] != d@[i as int]);
            return Route::Foreign;
        }
        i = i + 1;
    }
    assert(h@.subrange(hl - dl, hl as int) =~= d@);
    proof {
        encode_utf8_valid_utf8(host@);
        lemma_utf8_split(h@, hl - dl - 1);
    }
    Route::Tunnel(string_of(h, 0, hl - dl - 1))
}

proof fn lemma_encode_concat(a: Seq<char>, b: Seq<char>)
    ensures
        encode_utf8(a + b) == encode_utf8(a) + encode_utf8(b),
    decreases a.len(),
{
    if a.len() == 0 {
        assert(a + b =~= b);
    } else {
        lemma_encode_concat(a.drop_first(), b);
        assert((a + b).drop_first() =~= a.drop_first() + b);
        assert((a + b)[0] == a[0]);
    }
}

/// The address handed to a client routes back to its tunnel: a request for
/// host `subdomain.domain` is sent to the tunnel of `subdomain`.
pub proof fn lemma_url_routes_back(subdomain: Seq<char>, domain: Seq<char>)
    ensures
        ({
            let host = subdomain + seq!['.'] + domain;
            &&& host != domain
            &&& has_domain_suffix(encode_utf8(host), encode_utf8(domain))
            &&& decode_utf8(
                encode_utf8(host).subrange(
                    0,
                    encode_utf8(host).len() - encode_utf8(domain).len() - 1,
                ),
            ) == subdomain
        }),
{
    let host = subdomain + seq!['.'] + domain;
    assert(host.len() != domain.len());
    lemma_encode_concat(subdomain + seq!['.'], domain);
    lemma_encode_concat(subdomain, seq!['.']);
    let dot = encode_utf8(seq!['.']);
    assert(dot =~= seq![46u8]) by {
        reveal_with_fuel(encode_utf8, 2);
        assert(seq!['.'].drop_first() =~= Seq::<char>::empty());
        assert(seq!['.'][0] == '.');
        assert(('.' as u32) == 46u32);
        assert((46u32 & 0x7Fu32) as u8 == 46u8) by (bit_vector);
        assert(encode_scalar('.' as u32) =~= seq![46u8]);
    }
    let e = encode_utf8(host);
    let es = encode_utf8(subdomain);
    let ed = encode_utf8(domain);
    assert(e =~= es + seq![46u8] + ed);
    assert(e.subrange(e.len() - ed.len(), e.len() as int) =~= ed);
    assert(e.subrange(0, e.len() - ed.len() - 1) =~= es);
    encode_utf8_decode_utf8(subdomain);
}

/// The `301` answer for the bare domain.
pub open spec fn redirect_text() -> Seq<char> {
    "HTTP/1.1 301 Moved Permanently\r\nLocation: https://github.com/jbingen/tnnl\r\nContent-Length: 0\r\nConnection: close\r\n\r\n"@
}

/// Bytes of the `301` answer for the bare domain.
pub fn redirect_response() -> (r: Vec<u8>)
    ensures
        r@ == encode_utf8(redirect_text()),
{
    vstd::slice::slice_to_vec("HTTP/1.1 301 Moved Permanently\r\nLocation: https://github.com/jbingen/tnnl\r\nContent-Length: 0\r\nConnection: close\r\n\r\n".as_bytes())
}

/// Head of the install script answer, up to its length.
pub open spec fn install_head_text() -> Seq<char> {
    "HTTP/1.1 200 OK\r\nContent-Type: text/plain; charset=utf-8\r\nContent-Length: "@
}

/// Rest of the install script answer's head, after its length.
pub open spec fn install_tail_text() -> Seq<char> {
    "\r\nConnection: close\r\n\r\n"@
}

/// The `200` answer carrying the install script.
pub fn install_response(script: &str) -> (r: Vec<u8>)
    ensures
        r@ == encode_utf8(install_head_text()) + decimal(script.spec_bytes().len()) + encode_utf8(
            install_tail_text(),
        ) + script.spec_bytes(),
{
    let mut out = vstd::slice::slice_to_vec("HTTP/1.1 200 OK\r\nContent-Type: text/plain; charset=utf-8\r\nContent-Length: ".as_bytes());
    let body = script.as_bytes();
    push_decimal(&mut out, body.len() as u64);
    append_bytes(&mut out, "\r\nConnection: close\r\n\r\n".as_bytes());
    append_bytes(&mut out, body);
    out
}

} // verus!
