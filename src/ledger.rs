use vstd::prelude::*;
use crate::pool::Outcome;

verus! {

/// Identifier of the account that made a trade.
#[derive(Debug, Clone, Copy, PartialEq, Eq, Structural)]
pub struct AccountId(pub u64);

/// One executed swap.
#[derive(Debug, Clone, Copy, PartialEq, Eq, Structural)]
pub struct Trade {
    pub trader: AccountId,
    pub outcome: Outcome,
    pub quantity: u128,
    pub price: u128,
    pub timestamp: u64,
}

/// Capacity of a market's ledger unless another is chosen.
pub const DEFAULT_TRADE_CAPACITY: usize = 50;

/// The last `n` elements of `s` (all of `s` when it is shorter).
pub open spec fn last_n<T>(s: Seq<T>, n: nat) -> Seq<T> {
    if s.len() <= n {
        s
    } else {
        s.subrange(s.len() - n, s.len() as int)
    }
}

/// The first `limit` elements of `s` read from its end: the newest first.
pub open spec fn newest_first<T>(s: Seq<T>, limit: nat) -> Seq<T> {
    let n = if limit <= s.len() { limit } else { s.len() };
    Seq::new(n, |j: int| s[s.len() - 1 - j])
}

/// Slot of the `i`-th oldest trade in a full ring whose oldest slot is `start`.
pub open spec fn ring_slot(start: int, i: int, len: int) -> int {
    if start + i < len { start + i } else { start + i - len }
}

/// A ring buffer of the most recent trades of a market: at most `capacity`
/// are kept, and recording one more at capacity overwrites the oldest.
pub struct TradeLedger {
    slots: Vec<Trade>,
    start: usize,
    capacity: usize,
}

impl View for TradeLedger {
    type V = Seq<Trade>;

    /// The retained trades, oldest first.
    closed spec fn view(&self) -> Seq<Trade> {
        Seq::new(self.slots@.len(), |i: int| self.slots@[ring_slot(self.start as int, i, self.slots@.len() as int)])
    }
}

impl TradeLedger {
    pub closed spec fn wf(&self) -> bool {
        &&& self.capacity > 0
        &&& self.slots@.len() <= self.capacity
        &&& self.slots@.len() < self.capacity ==> self.start == 0
        &&& self.slots@.len() == self.capacity ==> self.start < self.capacity
    }

    pub closed spec fn cap(&self) -> nat {
        self.capacity as nat
    }

    /// An empty ledger that keeps at most `capacity` trades.
    pub fn new(capacity: usize) -> (r: TradeLedger)
        requires
            capacity > 0,
        ensures
            r.wf(),
            r.cap() == capacity,
            r@ == Seq::<Trade>::empty(),
    {
        let r = TradeLedger { slots: Vec::new(), start: 0, capacity };
        assert(r@ =~= Seq::<Trade>::empty());
        r
    }

    /// The most trades this ledger keeps.
    pub fn capacity(&self) -> (r: usize)
        ensures
            r == self.cap(),
    {
        self.capacity
    }

    /// Number of trades retained.
    pub fn len(&self) -> (r: usize)
        requires
            self.wf(),
        ensures
            r == self@.len(),
    {
        self.slots.len()
    }

    /// Appends `trade`, evicting the oldest one when the ledger is full.
    pub fn record_trade(&mut self, trade: Trade)
        requires
            old(self).wf(),
        ensures
            final(self).wf(),
            final(self).cap() == old(self).cap(),
            final(self)@ == last_n(old(self)@.push(trade), old(self).cap()),
            final(self)@.len() <= final(self).cap(),
    {
        let ghost before = self@;
        let len = self.slots.len();
        if len < self.capacity {
            self.slots.push(trade);
            assert(self@ =~= before.push(trade));
        } else {
            let s = self.start;
            self.slots.set(s, trade);
            self.start = if s + 1 == len { 0 } else { s + 1 };
            let ghost expect = last_n(before.push(trade), self.capacity as nat);
            assert(expect =~= before.push(trade).subrange(1, len as int + 1));
            assert(self@ =~= expect);
        }
    }

    /// Up to `limit` of the retained trades, the newest first.
    pub fn get_recent_trades(&self, limit: usize) -> (r: Vec<Trade>)
        requires
            self.wf(),
        ensures
            r@ == newest_first(self@, limit as nat),
    {
        let len = self.slots.len();
        let n = if limit <= len { limit } else { len };
        let mut out: Vec<Trade> = Vec::new();
        let mut j: usize = 0;
        while j < n
            invariant
                self.wf(),
                len == self.slots@.len(),
                n <= len,
                n == if limit <= len { limit } else { len },
                j <= n,
                out@ =~= newest_first(self@, limit as nat).subrange(0, j as int),
            decreases n - j,
        {
            let i = len - 1 - j;
            let slot = if i < len - self.start { self.start + i } else { i - (len - self.start) };
            out.push(self.slots[slot]);
            j = j + 1;
        }
        assert(out@ =~= newest_first(self@, limit as nat));
        out
    }
}

} // verus!

verus! {

/// The retained trades after recording each of `ts`, in order, into a
/// ledger of capacity `n` that held `s`.
pub open spec fn record_all(s: Seq<Trade>, ts: Seq<Trade>, n: nat) -> Seq<Trade>
    decreases ts.len(),
{
    if ts.len() == 0 {
        s
    } else {
        last_n(record_all(s, ts.drop_last(), n).push(ts.last()), n)
    }
}

/// However many trades are recorded, a ledger of capacity `n` holds exactly
/// the last `n` of everything appended (all of it while there is room), so it
/// never exceeds `n`; and asking for `n` recent trades yields those, the
/// newest first.
pub proof fn lemma_ledger_keeps_last(s: Seq<Trade>, ts: Seq<Trade>, n: nat)
    requires
        n > 0,
        s.len() <= n,
    ensures
        record_all(s, ts, n) == last_n(s + ts, n),
        record_all(s, ts, n).len() <= n,
        s.len() + ts.len() >= n ==> record_all(s, ts, n).len() == n,
        newest_first(record_all(s, ts, n), n) == newest_first(s + ts, n),
    decreases ts.len(),
{
    if ts.len() == 0 {
        assert(s + ts =~= s);
    } else {
        lemma_ledger_keeps_last(s, ts.drop_last(), n);
        let prev = s + ts.drop_last();
        assert(prev.push(ts.last()) =~= s + ts);
        assert(last_n(last_n(prev, n).push(ts.last()), n) =~= last_n(prev.push(ts.last()), n));
    }
    let all = s + ts;
    assert(newest_first(last_n(all, n), n) =~= newest_first(all, n));
}

} // verus!
