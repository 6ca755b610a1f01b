//! Penalty tables: the recent tokens of a lane with their counts, as the device reads them.

use vstd::prelude::*;

use crate::batch::draft::MAX_VERIFY;
use crate::batch::lane;
use crate::single::{Single, ONE_BITS};

verus! {

/// A token as the device stores it.
pub open spec fn on_device(t: u32) -> i32 {
    t as i32
}

/// A token as the device stores it.
pub fn device_token(t: u32) -> (r: i32)
    ensures
        r == on_device(t),
{
    #[verifier::truncate]
    (t as i32)
}

/// The last `mp` tokens of a history, latest first.
pub open spec fn recent(history: Seq<u32>, mp: int) -> Seq<u32> {
    let n = if history.len() < mp {
        history.len() as int
    } else {
        mp
    };
    Seq::new(n as nat, |k: int| history[history.len() - 1 - k])
}

/// The distinct tokens of a list, in the order of their first occurrence.
pub open spec fn firsts(r: Seq<u32>) -> Seq<u32>
    decreases r.len(),
{
    if r.len() == 0 {
        Seq::empty()
    } else {
        let f = firsts(r.drop_last());
        if f.contains(r.last()) {
            f
        } else {
            f.push(r.last())
        }
    }
}

/// How often `x` occurs in a list.
pub open spec fn times(r: Seq<u32>, x: u32) -> int
    decreases r.len(),
{
    if r.len() == 0 {
        0
    } else {
        times(r.drop_last(), x) + if r.last() == x {
            1int
        } else {
            0
        }
    }
}

/// The token entries of a row: the distinct recent tokens, then `-1`.
pub open spec fn row_tokens(history: Seq<u32>, mp: int) -> Seq<i32> {
    let f = firsts(recent(history, mp));
    Seq::new(
        mp as nat,
        |i: int|
            if i < f.len() {
                on_device(f[i])
            } else {
                -1i32
            },
    )
}

/// The counts that go with them.
pub open spec fn row_counts(history: Seq<u32>, mp: int) -> Seq<i16> {
    let r = recent(history, mp);
    let f = firsts(r);
    Seq::new(
        mp as nat,
        |i: int|
            if i < f.len() {
                times(r, f[i]) as i16
            } else {
                0i16
            },
    )
}

proof fn lemma_firsts(r: Seq<u32>)
    ensures
        firsts(r).len() <= r.len(),
        forall|x: u32| #[trigger] firsts(r).contains(x) <==> r.contains(x),
        firsts(r).no_duplicates(),
    decreases r.len(),
{
    if r.len() > 0 {
        let d = r.drop_last();
        lemma_firsts(d);
        let f = firsts(d);
        assert forall|x: u32| #[trigger] firsts(r).contains(x) <==> r.contains(x) by {
            assert(r =~= d.push(r.last()));
            if firsts(r).contains(x) {
                let i = choose|i: int| 0 <= i < firsts(r).len() && firsts(r)[i] == x;
                if i < f.len() {
                    assert(f[i] == x);
                    assert(f.contains(x));
                }
            }
            if r.contains(x) {
                let i = choose|i: int| 0 <= i < r.len() && r[i] == x;
                if i < d.len() {
                    assert(d[i] == x);
                    assert(f.contains(x));
                }
                if f.contains(x) {
                    let j = choose|j: int| 0 <= j < f.len() && f[j] == x;
                    assert(firsts(r)[j] == x);
                } else {
                    assert(firsts(r).last() == x);
                }
            }
        }
    }
}

proof fn lemma_times(r: Seq<u32>, x: u32)
    ensures
        0 <= times(r, x) <= r.len(),
        !r.contains(x) ==> times(r, x) == 0,
    decreases r.len(),
{
    if r.len() > 0 {
        lemma_times(r.drop_last(), x);
        if !r.contains(x) {
            assert(r.last() != x);
            assert forall|i: int| 0 <= i < r.drop_last().len() implies r.drop_last()[i] != x by {
                assert(r[i] != x);
            }
        }
    }
}

/// The counts of a history fit on the device.
pub open spec fn countable(history: Seq<u32>, mp: usize) -> bool {
    history.len() <= i16::MAX || mp <= i16::MAX
}

/// One row of a penalty table.
pub struct PenaltyRow {
    pub tokens: Vec<i32>,
    pub counts: Vec<i16>,
}

/// Builds the row of a history.
pub fn penalty_row(history: &Vec<u32>, mp: usize) -> (r: PenaltyRow)
    requires
        countable(history@, mp),
    ensures
        r.tokens@ == row_tokens(history@, mp as int),
        r.counts@ == row_counts(history@, mp as int),
{
    let len: usize = history.len();
    let n: usize = if len < mp {
        len
    } else {
        mp
    };
    let ghost all = recent(history@, mp as int);
    let mut seen: Vec<u32> = Vec::new();
    let mut tokens: Vec<i32> = Vec::new();
    let mut counts: Vec<i16> = Vec::new();
    let mut k: usize = 0;
    while k < n
        invariant
            k <= n,
            n == all.len(),
            n <= len,
            n <= mp,
            len == history@.len(),
            n <= i16::MAX,
            all == recent(history@, mp as int),
            seen@ == firsts(all.take(k as int)),
            tokens@ == Seq::new(seen@.len(), |i: int| on_device(seen@[i])),
            counts@ == Seq::new(seen@.len(), |i: int| times(all.take(k as int), seen@[i]) as i16),
        decreases n - k,
    {
        let t: u32 = history[len - 1 - k];
        assert(t == all[k as int]);
        let ghost part = all.take(k as int);
        let ghost next = all.take(k as int + 1);
        assert(next.drop_last() =~= part);
        assert(next.last() == t);
        proof {
            lemma_firsts(part);
        }
        let mut j: usize = 0;
        while j < seen.len() && seen[j] != t
            invariant
                j <= seen@.len(),
                forall|i: int| 0 <= i < j ==> #[trigger] seen@[i] != t,
            decreases seen@.len() - j,
        {
            j += 1;
        }
        let ghost seen0 = seen@;
        if j < seen.len() {
            assert(seen@.contains(t));
            proof {
                lemma_times(part, t);
            }
            let c: i16 = counts[j];
            counts.set(j, c + 1);
            assert(firsts(next) == seen@);
            assert forall|i: int| 0 <= i < seen@.len() implies #[trigger] counts@[i] == times(
                next,
                seen@[i],
            ) as i16 by {
                if i != j {
                    assert(seen@[i] != seen@[j as int]);
                }
                lemma_times(part, seen@[i]);
            }
            assert(counts@ =~= Seq::new(seen@.len(), |i: int| times(next, seen@[i]) as i16));
        } else {
            assert(!seen@.contains(t));
            proof {
                lemma_times(part, t);
            }
            seen.push(t);
            tokens.push(device_token(t));
            counts.push(1);
            assert(firsts(next) == seen@);
            assert forall|i: int| 0 <= i < seen@.len() implies #[trigger] counts@[i] == times(
                next,
                seen@[i],
            ) as i16 by {
                if i < seen0.len() {
                    assert(seen0[i] == seen@[i]);
                }
            }
            assert(counts@ =~= Seq::new(seen@.len(), |i: int| times(next, seen@[i]) as i16));
            assert(tokens@ =~= Seq::new(seen@.len(), |i: int| on_device(seen@[i])));
        }
        k += 1;
    }
    assert(all.take(n as int) =~= all);
    proof {
        lemma_firsts(all);
    }
    let ghost f = firsts(all);
    while tokens.len() < mp
        invariant
            f.len() <= tokens@.len() <= mp,
            counts@.len() == tokens@.len(),
            forall|i: int|
                0 <= i < tokens@.len() ==> #[trigger] tokens@[i] == if i < f.len() {
                    on_device(f[i])
                } else {
                    -1i32
                },
            forall|i: int|
                0 <= i < tokens@.len() ==> #[trigger] counts@[i] == if i < f.len() {
                    times(all, f[i]) as i16
                } else {
                    0i16
                },
        decreases mp - tokens@.len(),
    {
        tokens.push(-1);
        counts.push(0);
    }
    assert(tokens@ =~= row_tokens(history@, mp as int));
    assert(counts@ =~= row_counts(history@, mp as int));
    PenaltyRow { tokens, counts }
}

/// `n` rows, one behind the other.
pub open spec fn stacked<T>(row: spec_fn(int) -> Seq<T>, n: int) -> Seq<T>
    decreases n,
{
    if n <= 0 {
        Seq::empty()
    } else {
        stacked(row, n - 1) + row(n - 1)
    }
}

/// Values of the penalties, by column.
pub struct PenaltyValues {
    pub rep: Vec<Single>,
    pub presence: Vec<Single>,
    pub frequency: Vec<Single>,
}

/// A penalty table over the columns of a verify.
pub struct PenaltyTable {
    pub tokens: Vec<i32>,
    pub counts: Vec<i16>,
    /// Absent where the device holds the values already.
    pub values: Option<PenaltyValues>,
}

/// The penalty values that the device holds in every column.
#[derive(Clone, Copy, PartialEq, Eq, Structural, Debug)]
pub struct PenaltyKey {
    pub rep: Single,
    pub presence: Single,
    pub frequency: Single,
}

pub(crate) fn append_row(tokens: &mut Vec<i32>, counts: &mut Vec<i16>, row: &PenaltyRow)
    ensures
        final(tokens)@ == old(tokens)@ + row.tokens@,
        final(counts)@ == old(counts)@ + row.counts@,
{
    let mut t = row.tokens.clone();
    let mut c = row.counts.clone();
    assert(t@ =~= row.tokens@);
    assert(c@ =~= row.counts@);
    tokens.append(&mut t);
    counts.append(&mut c);
}

/// `n` copies of a value.
pub open spec fn copies<T>(x: T, n: int) -> Seq<T> {
    Seq::new(n as nat, |i: int| x)
}

fn fill(x: Single, n: usize) -> (v: Vec<Single>)
    ensures
        v@ == copies(x, n as int),
{
    let mut v: Vec<Single> = Vec::new();
    while v.len() < n
        invariant
            v@.len() <= n,
            forall|i: int| 0 <= i < v@.len() ==> #[trigger] v@[i] == x,
        decreases n - v@.len(),
    {
        v.push(x);
    }
    assert(v@ =~= copies(x, n as int));
    v
}

/// The penalty table of a chain: every column carries the lane's history. Without a penalty there
/// is none. The values are handed out only where the device holds others.
pub fn make_penalty(
    history: &Vec<u32>,
    key: PenaltyKey,
    mp: usize,
    held: &mut Option<PenaltyKey>,
) -> (r: Option<PenaltyTable>)
    requires
        countable(history@, mp),
    ensures
        r is Some <==> lane::penalizes(key.rep, key.presence, key.frequency),
        r is None ==> *final(held) == *old(held),
        r is Some ==> *final(held) == Some(key),
        r matches Some(t) ==> {
            &&& t.tokens@ == stacked(|c: int| row_tokens(history@, mp as int), MAX_VERIFY as int)
            &&& t.counts@ == stacked(|c: int| row_counts(history@, mp as int), MAX_VERIFY as int)
            &&& t.values is None <==> *old(held) == Some(key)
            &&& t.values matches Some(v) ==> {
                &&& v.rep@ == copies(key.rep, MAX_VERIFY as int)
                &&& v.presence@ == copies(key.presence, MAX_VERIFY as int)
                &&& v.frequency@ == copies(key.frequency, MAX_VERIFY as int)
            }
        },
{
    if !lane::has_penalties(key.rep, key.presence, key.frequency) {
        return None;
    }
    let row = penalty_row(history, mp);
    let ghost ft = |c: int| row_tokens(history@, mp as int);
    let ghost fc = |c: int| row_counts(history@, mp as int);
    let mut tokens: Vec<i32> = Vec::new();
    let mut counts: Vec<i16> = Vec::new();
    let mut c: usize = 0;
    while c < MAX_VERIFY
        invariant
            c <= MAX_VERIFY,
            ft == (|c: int| row_tokens(history@, mp as int)),
            fc == (|c: int| row_counts(history@, mp as int)),
            row.tokens@ == row_tokens(history@, mp as int),
            row.counts@ == row_counts(history@, mp as int),
            tokens@ == stacked(ft, c as int),
            counts@ == stacked(fc, c as int),
        decreases MAX_VERIFY - c,
    {
        append_row(&mut tokens, &mut counts, &row);
        c += 1;
    }
    let known = match *held {
        Some(k) => k == key,
        None => false,
    };
    let values = if known {
        None
    } else {
        Some(
            PenaltyValues {
                rep: fill(key.rep, MAX_VERIFY),
                presence: fill(key.presence, MAX_VERIFY),
                frequency: fill(key.frequency, MAX_VERIFY),
            },
        )
    };
    *held = Some(key);
    Some(PenaltyTable { tokens, counts, values })
}

/// The columns of a lane in a packed verify, with its penalties and its history.
pub struct LaneColumns {
    pub start: usize,
    pub len: usize,
    pub key: PenaltyKey,
    pub history: Vec<u32>,
}

/// The lane that column `c` belongs to, among the first `n`; the last one where several claim it.
pub open spec fn owner(lanes: Seq<LaneColumns>, c: int, n: int) -> Option<int>
    decreases n,
{
    if n <= 0 {
        None
    } else if lanes[n - 1].start <= c < lanes[n - 1].start + lanes[n - 1].len {
        Some(n - 1)
    } else {
        owner(lanes, c, n - 1)
    }
}

/// Tokens of column `c`.
pub open spec fn column_tokens(lanes: Seq<LaneColumns>, mp: int, c: int) -> Seq<i32> {
    match owner(lanes, c, lanes.len() as int) {
        Some(k) => row_tokens(lanes[k].history@, mp),
        None => copies(-1i32, mp),
    }
}

/// Counts of column `c`.
pub open spec fn column_counts(lanes: Seq<LaneColumns>, mp: int, c: int) -> Seq<i16> {
    match owner(lanes, c, lanes.len() as int) {
        Some(k) => row_counts(lanes[k].history@, mp),
        None => copies(0i16, mp),
    }
}

/// Penalties of column `c`; a column of no lane carries none.
pub open spec fn column_key(lanes: Seq<LaneColumns>, c: int) -> PenaltyKey {
    match owner(lanes, c, lanes.len() as int) {
        Some(k) => lanes[k].key,
        None => PenaltyKey {
            rep: Single { bits: ONE_BITS },
            presence: Single { bits: 0 },
            frequency: Single { bits: 0 },
        },
    }
}

/// Some lane has a penalty.
pub open spec fn some_penalty(lanes: Seq<LaneColumns>) -> bool {
    exists|k: int|
        0 <= k < lanes.len() && lane::penalizes(
            (#[trigger] lanes[k]).key.rep,
            lanes[k].key.presence,
            lanes[k].key.frequency,
        )
}

fn find_owner(lanes: &Vec<LaneColumns>, c: usize) -> (r: Option<usize>)
    ensures
        match owner(lanes@, c as int, lanes@.len() as int) {
            Some(k) => r == Some(k as usize) && 0 <= k < lanes@.len(),
            None => r is None,
        },
{
    let mut n: usize = lanes.len();
    while n > 0
        invariant
            n <= lanes@.len(),
            owner(lanes@, c as int, lanes@.len() as int) == owner(lanes@, c as int, n as int),
        decreases n,
    {
        let l = &lanes[n - 1];
        if l.start <= c && c - l.start < l.len {
            return Some(n - 1);
        }
        n -= 1;
    }
    None
}

fn any_penalty(lanes: &Vec<LaneColumns>) -> (r: bool)
    ensures
        r == some_penalty(lanes@),
{
    let mut k: usize = 0;
    while k < lanes.len()
        invariant
            k <= lanes@.len(),
            forall|i: int|
                0 <= i < k ==> !lane::penalizes(
                    (#[trigger] lanes@[i]).key.rep,
                    lanes@[i].key.presence,
                    lanes@[i].key.frequency,
                ),
        decreases lanes@.len() - k,
    {
        let q = lanes[k].key;
        if lane::has_penalties(q.rep, q.presence, q.frequency) {
            return true;
        }
        k += 1;
    }
    false
}

/// The penalty table of a packed verify: each column carries the penalties of its own lane.
/// Without any penalty there is none. The device's values are then those of no single lane.
pub fn make_forest_penalty(
    lanes: &Vec<LaneColumns>,
    mp: usize,
    held: &mut Option<PenaltyKey>,
) -> (r: Option<PenaltyTable>)
    requires
        forall|k: int|
            0 <= k < lanes@.len() ==> countable((#[trigger] lanes@[k]).history@, mp),
    ensures
        r is Some <==> some_penalty(lanes@),
        r is None ==> *final(held) == *old(held),
        r is Some ==> *final(held) is None,
        r matches Some(t) ==> {
            &&& t.tokens@ == stacked(
                |c: int| column_tokens(lanes@, mp as int, c),
                MAX_VERIFY as int,
            )
            &&& t.counts@ == stacked(
                |c: int| column_counts(lanes@, mp as int, c),
                MAX_VERIFY as int,
            )
            &&& t.values is Some
            &&& t.values->0.rep@ == Seq::new(
                MAX_VERIFY as nat,
                |c: int| column_key(lanes@, c).rep,
            )
            &&& t.values->0.presence@ == Seq::new(
                MAX_VERIFY as nat,
                |c: int| column_key(lanes@, c).presence,
            )
            &&& t.values->0.frequency@ == Seq::new(
                MAX_VERIFY as nat,
                |c: int| column_key(lanes@, c).frequency,
            )
        },
{
    if !any_penalty(lanes) {
        return None;
    }
    let mut rows: Vec<PenaltyRow> = Vec::new();
    while rows.len() < lanes.len()
        invariant
            rows@.len() <= lanes@.len(),
            forall|k: int|
                0 <= k < lanes@.len() ==> countable((#[trigger] lanes@[k]).history@, mp),
            forall|k: int|
                0 <= k < rows@.len() ==> (#[trigger] rows@[k]).tokens@ == row_tokens(
                    lanes@[k].history@,
                    mp as int,
                ) && rows@[k].counts@ == row_counts(lanes@[k].history@, mp as int),
        decreases lanes@.len() - rows@.len(),
    {
        let row = penalty_row(&lanes[rows.len()].history, mp);
        rows.push(row);
    }
    let nothing: Vec<u32> = Vec::new();
    let blank = penalty_row(&nothing, mp);
    assert(recent(nothing@, mp as int) =~= Seq::<u32>::empty());
    assert(blank.tokens@ =~= copies(-1i32, mp as int));
    assert(blank.counts@ =~= copies(0i16, mp as int));
    let ghost ft = |c: int| column_tokens(lanes@, mp as int, c);
    let ghost fc = |c: int| column_counts(lanes@, mp as int, c);
    let mut tokens: Vec<i32> = Vec::new();
    let mut counts: Vec<i16> = Vec::new();
    let mut rep: Vec<Single> = Vec::new();
    let mut presence: Vec<Single> = Vec::new();
    let mut frequency: Vec<Single> = Vec::new();
    let mut c: usize = 0;
    while c < MAX_VERIFY
        invariant
            c <= MAX_VERIFY,
            ft == (|c: int| column_tokens(lanes@, mp as int, c)),
            fc == (|c: int| column_counts(lanes@, mp as int, c)),
            rows@.len() == lanes@.len(),
            forall|k: int|
                0 <= k < rows@.len() ==> (#[trigger] rows@[k]).tokens@ == row_tokens(
                    lanes@[k].history@,
                    mp as int,
                ) && rows@[k].counts@ == row_counts(lanes@[k].history@, mp as int),
            blank.tokens@ == copies(-1i32, mp as int),
            blank.counts@ == copies(0i16, mp as int),
            tokens@ == stacked(ft, c as int),
            counts@ == stacked(fc, c as int),
            rep@ == Seq::new(c as nat, |c: int| column_key(lanes@, c).rep),
            presence@ == Seq::new(c as nat, |c: int| column_key(lanes@, c).presence),
            frequency@ == Seq::new(c as nat, |c: int| column_key(lanes@, c).frequency),
        decreases MAX_VERIFY - c,
    {
        let key = match find_owner(lanes, c) {
            Some(k) => {
                append_row(&mut tokens, &mut counts, &rows[k]);
                lanes[k].key
            },
            None => {
                append_row(&mut tokens, &mut counts, &blank);
                PenaltyKey {
                    rep: Single { bits: ONE_BITS },
                    presence: Single { bits: 0 },
                    frequency: Single { bits: 0 },
                }
            },
        };
        assert(key == column_key(lanes@, c as int));
        rep.push(key.rep);
        presence.push(key.presence);
        frequency.push(key.frequency);
        c += 1;
        assert(rep@ =~= Seq::new(c as nat, |c: int| column_key(lanes@, c).rep));
        assert(presence@ =~= Seq::new(c as nat, |c: int| column_key(lanes@, c).presence));
        assert(frequency@ =~= Seq::new(c as nat, |c: int| column_key(lanes@, c).frequency));
    }
    *held = None;
    Some(PenaltyTable { tokens, counts, values: Some(PenaltyValues { rep, presence, frequency }) })
}

/// The last tokens of a history, at most `mp` of them, in their order.
pub open spec fn window(history: Seq<u32>, mp: int) -> Seq<u32> {
    let n = if mp < history.len() {
        mp
    } else {
        history.len() as int
    };
    history.subrange(history.len() - n, history.len() as int)
}

/// `tokens` and `counts` are a row of the tokens `w`: the entries are the distinct tokens of `w`,
/// each with the number of its occurrences, one whose last occurrence is later before one whose last
/// occurrence is earlier; behind them no token stands.
pub open spec fn tells(w: Seq<u32>, entries: Seq<u32>, tokens: Seq<i32>, counts: Seq<i16>) -> bool {
    &&& entries.no_duplicates()
    &&& forall|x: u32| #[trigger] entries.contains(x) <==> w.contains(x)
    &&& entries.len() <= tokens.len()
    &&& tokens.len() == counts.len()
    &&& forall|i: int|
        0 <= i < entries.len() ==> #[trigger] tokens[i] == entries[i] as i32 && counts[i]
            == w.to_multiset().count(entries[i])
    &&& forall|i: int|
        entries.len() <= i < tokens.len() ==> #[trigger] tokens[i] == -1 && counts[i] == 0
    &&& forall|i: int, j: int|
        0 <= i < j < entries.len() ==> seen_later(
            w,
            #[trigger] entries[i],
            #[trigger] entries[j],
        )
}

/// `a` stands in `w` behind every place of `b`.
pub open spec fn seen_later(w: Seq<u32>, a: u32, b: u32) -> bool {
    exists|p: int|
        0 <= p < w.len() && #[trigger] w[p] == a && forall|q: int|
            p <= q < w.len() ==> #[trigger] w[q] != b
}

proof fn lemma_times_is_count(history: Seq<u32>, n: int, x: u32)
    requires
        0 <= n <= history.len(),
    ensures
        times(recent(history, n), x) == history.subrange(
            history.len() - n,
            history.len() as int,
        ).to_multiset().count(x),
    decreases n,
{
    broadcast use vstd::multiset::group_multiset_axioms;

    let len = history.len() as int;
    let part = history.subrange(len - n, len);
    if n == 0 {
        assert(recent(history, 0) =~= Seq::empty());
        part.to_multiset_ensures();
        assert(!part.contains(x));
    } else {
        let r = recent(history, n);
        let shorter = history.subrange(len - n + 1, len);
        lemma_times_is_count(history, n - 1, x);
        assert(r.drop_last() =~= recent(history, n - 1));
        assert(r.last() == history[len - n]);
        assert(part.remove(0) =~= shorter);
        part.to_multiset_ensures();
        shorter.to_multiset_ensures();
        assert(shorter.to_multiset() == part.to_multiset().remove(part[0]));
        assert(part.contains(part[0]));
        assert(part.to_multiset().count(part[0]) > 0);
    }
}

/// An entry that comes first was met first.
proof fn lemma_firsts_in_order(r: Seq<u32>, i: int, j: int) -> (p: int)
    requires
        0 <= i < j < firsts(r).len(),
    ensures
        0 <= p < r.len(),
        r[p] == firsts(r)[i],
        forall|q: int| 0 <= q <= p ==> #[trigger] r[q] != firsts(r)[j],
    decreases r.len(),
{
    let d = r.drop_last();
    let f = firsts(d);
    lemma_firsts(d);
    lemma_firsts(r);
    if j < f.len() {
        let p = lemma_firsts_in_order(d, i, j);
        assert forall|q: int| 0 <= q <= p implies #[trigger] r[q] != firsts(r)[j] by {
            assert(d[q] == r[q]);
        }
        p
    } else {
        assert(firsts(r)[i] == f[i]);
        assert(f.contains(f[i]));
        assert(d.contains(f[i]));
        let p = choose|p: int| 0 <= p < d.len() && d[p] == f[i];
        assert(!f.contains(r.last()));
        assert forall|q: int| 0 <= q <= p implies #[trigger] r[q] != firsts(r)[j] by {
            assert(d[q] == r[q]);
            if d[q] == r.last() {
                assert(d.contains(r.last()));
            }
        }
        p
    }
}

/// A row tells the last `mp` tokens of a history: each distinct token stands in it once, with the
/// number of times that it occurs among them, the latest first.
pub proof fn law_a_row_tells_the_recent_tokens(history: Seq<u32>, mp: int)
    requires
        0 <= mp,
        history.len() <= i16::MAX || mp <= i16::MAX,
    ensures
        row_tokens(history, mp).len() == mp,
        exists|entries: Seq<u32>| #[trigger]
            tells(
                window(history, mp),
                entries,
                row_tokens(history, mp),
                row_counts(history, mp),
            ),
{
    let len = history.len() as int;
    let n = if mp < len {
        mp
    } else {
        len
    };
    let w = window(history, mp);
    let r = recent(history, mp);
    let f = firsts(r);
    assert(r =~= recent(history, n));
    lemma_firsts(r);
    assert forall|k: int| 0 <= k < n implies r[k] == #[trigger] w[n - 1 - k] by {}
    assert forall|x: u32| #[trigger] f.contains(x) <==> w.contains(x) by {
        if r.contains(x) {
            let k = choose|k: int| 0 <= k < r.len() && r[k] == x;
            assert(w[n - 1 - k] == x);
        }
        if w.contains(x) {
            let k = choose|k: int| 0 <= k < w.len() && w[k] == x;
            assert(r[n - 1 - k] == x);
        }
    }
    assert forall|i: int| 0 <= i < f.len() implies #[trigger] row_tokens(history, mp)[i]
        == f[i] as i32 && row_counts(history, mp)[i] == w.to_multiset().count(f[i]) by {
        lemma_times_is_count(history, n, f[i]);
        lemma_times(r, f[i]);
    }
    assert forall|i: int, j: int| 0 <= i < j < f.len() implies seen_later(
        w,
        #[trigger] f[i],
        #[trigger] f[j],
    ) by {
        let p = lemma_firsts_in_order(r, i, j);
        let at = n - 1 - p;
        assert(w[at] == f[i]);
        assert forall|q: int| at <= q < w.len() implies #[trigger] w[q] != f[j] by {
            assert(r[n - 1 - q] == w[q]);
        }
    }
    assert(tells(w, f, row_tokens(history, mp), row_counts(history, mp)));
}

/// Sum of the first `n` counts.
pub open spec fn summed(counts: Seq<i16>, n: int) -> int
    decreases n,
{
    if n <= 0 {
        0
    } else {
        summed(counts, n - 1) + counts[n - 1]
    }
}

spec fn times_summed(r: Seq<u32>, f: Seq<u32>, n: int) -> int
    decreases n,
{
    if n <= 0 {
        0
    } else {
        times_summed(r, f, n - 1) + times(r, f[n - 1])
    }
}

proof fn lemma_one_more(r: Seq<u32>, x: u32, f: Seq<u32>, n: int)
    requires
        0 <= n <= f.len(),
        f.no_duplicates(),
    ensures
        times_summed(r.push(x), f, n) == times_summed(r, f, n) + if f.take(n).contains(x) {
            1int
        } else {
            0
        },
    decreases n,
{
    assert(r.push(x).drop_last() =~= r);
    if n > 0 {
        lemma_one_more(r, x, f, n - 1);
        let part = f.take(n - 1);
        if f[n - 1] == x {
            assert(!part.contains(x)) by {
                if part.contains(x) {
                    let k = choose|k: int| 0 <= k < part.len() && part[k] == x;
                    assert(f[k] == f[n - 1]);
                }
            }
            assert(f.take(n)[n - 1] == x);
        } else {
            if part.contains(x) {
                let k = choose|k: int| 0 <= k < part.len() && part[k] == x;
                assert(f.take(n)[k] == x);
            }
            if f.take(n).contains(x) {
                let k = choose|k: int| 0 <= k < n && f.take(n)[k] == x;
                assert(part[k] == x);
            }
        }
    }
}

proof fn lemma_all_counted(r: Seq<u32>, f: Seq<u32>)
    requires
        f.no_duplicates(),
        forall|x: u32| r.contains(x) ==> #[trigger] f.contains(x),
    ensures
        times_summed(r, f, f.len() as int) == r.len(),
    decreases r.len(),
{
    if r.len() == 0 {
        lemma_nothing_counted(r, f, f.len() as int);
    } else {
        let d = r.drop_last();
        assert forall|x: u32| d.contains(x) implies #[trigger] f.contains(x) by {
            let k = choose|k: int| 0 <= k < d.len() && d[k] == x;
            assert(r[k] == x);
        }
        lemma_all_counted(d, f);
        lemma_one_more(d, r.last(), f, f.len() as int);
        assert(d.push(r.last()) =~= r);
        assert(f.take(f.len() as int) =~= f);
        assert(r.contains(r.last())) by {
            assert(r[r.len() - 1] == r.last());
        }
    }
}

proof fn lemma_nothing_counted(r: Seq<u32>, f: Seq<u32>, n: int)
    requires
        r.len() == 0,
        0 <= n <= f.len(),
    ensures
        times_summed(r, f, n) == 0,
    decreases n,
{
    if n > 0 {
        lemma_nothing_counted(r, f, n - 1);
    }
}

proof fn lemma_summed(r: Seq<u32>, f: Seq<u32>, counts: Seq<i16>, n: int)
    requires
        0 <= n <= f.len(),
        n <= counts.len(),
        forall|i: int| 0 <= i < n ==> #[trigger] counts[i] == times(r, f[i]),
    ensures
        summed(counts, n) == times_summed(r, f, n),
    decreases n,
{
    if n > 0 {
        lemma_summed(r, f, counts, n - 1);
    }
}

proof fn lemma_summed_zeros(counts: Seq<i16>, a: int, n: int)
    requires
        0 <= a <= n <= counts.len(),
        forall|i: int| a <= i < n ==> #[trigger] counts[i] == 0,
    ensures
        summed(counts, n) == summed(counts, a),
    decreases n,
{
    if a < n {
        lemma_summed_zeros(counts, a, n - 1);
    }
}

/// No recent token is lost: the counts of a row add up to the number of recent tokens.
pub proof fn law_counts_add_up(history: Seq<u32>, mp: int)
    requires
        0 <= mp,
        history.len() <= i16::MAX || mp <= i16::MAX,
    ensures
        summed(row_counts(history, mp), mp) == if mp < history.len() {
            mp
        } else {
            history.len() as int
        },
{
    let r = recent(history, mp);
    let f = firsts(r);
    let counts = row_counts(history, mp);
    lemma_firsts(r);
    assert forall|i: int| 0 <= i < f.len() implies #[trigger] counts[i] == times(r, f[i]) by {
        lemma_times(r, f[i]);
    }
    lemma_summed(r, f, counts, f.len() as int);
    assert forall|x: u32| r.contains(x) implies #[trigger] f.contains(x) by {}
    lemma_all_counted(r, f);
    lemma_summed_zeros(counts, f.len() as int, mp);
}

/// A table holds its rows one behind the other: entry `i` of column `c` stands in place
/// `c * mp + i`.
pub proof fn law_rows_stand_behind_each_other<T>(
    row: spec_fn(int) -> Seq<T>,
    n: int,
    mp: int,
    c: int,
    i: int,
)
    requires
        forall|x: int| 0 <= x < n ==> (#[trigger] row(x)).len() == mp,
        0 <= c < n,
        0 <= i < mp,
    ensures
        stacked(row, n).len() == n * mp,
        stacked(row, n)[c * mp + i] == row(c)[i],
    decreases n,
{
    lemma_stacked_len(row, n, mp);
    lemma_stacked_len(row, n - 1, mp);
    if c == n - 1 {
        assert(c * mp + i == (n - 1) * mp + i);
    } else {
        law_rows_stand_behind_each_other(row, n - 1, mp, c, i);
        assert(c * mp + i < (n - 1) * mp) by (nonlinear_arith)
            requires
                0 <= c < n - 1,
                0 <= i < mp,
        ;
        assert(0 <= c * mp) by (nonlinear_arith)
            requires
                0 <= c,
                0 < mp,
        ;
    }
}

proof fn lemma_stacked_len<T>(row: spec_fn(int) -> Seq<T>, n: int, mp: int)
    requires
        forall|x: int| 0 <= x < n ==> (#[trigger] row(x)).len() == mp,
        0 <= n,
    ensures
        stacked(row, n).len() == n * mp,
    decreases n,
{
    if n > 0 {
        lemma_stacked_len(row, n - 1, mp);
        assert(row(n - 1).len() == mp);
        assert((n - 1) * mp + mp == n * mp) by (nonlinear_arith);
    } else {
        assert(0 * mp == 0);
    }
}

/// A column of a packed verify carries the history and the penalties of the lane that it belongs
/// to, and a column of no lane carries nothing.
pub proof fn law_columns_carry_their_own_lane(lanes: Seq<LaneColumns>, mp: int, c: int, k: int)
    requires
        0 <= k < lanes.len(),
        forall|x: int|
            0 <= x < lanes.len() && x != k ==> !(#[trigger] lanes[x].start <= c < lanes[x].start
                + lanes[x].len),
    ensures
        lanes[k].start <= c < lanes[k].start + lanes[k].len ==> column_tokens(lanes, mp, c)
            == row_tokens(lanes[k].history@, mp) && column_counts(lanes, mp, c) == row_counts(
            lanes[k].history@,
            mp,
        ) && column_key(lanes, c) == lanes[k].key,
        !(lanes[k].start <= c < lanes[k].start + lanes[k].len) ==> column_tokens(lanes, mp, c)
            == Seq::new(mp as nat, |i: int| -1i32) && column_counts(lanes, mp, c) == Seq::new(
            mp as nat,
            |i: int| 0i16,
        ) && column_key(lanes, c).rep.bits == 0x3F80_0000 && column_key(lanes, c).presence.bits == 0
            && column_key(lanes, c).frequency.bits == 0,
{
    lemma_owner(lanes, c, k, lanes.len() as int);
    assert(copies(-1i32, mp) =~= Seq::new(mp as nat, |i: int| -1i32));
    assert(copies(0i16, mp) =~= Seq::new(mp as nat, |i: int| 0i16));
}

proof fn lemma_owner(lanes: Seq<LaneColumns>, c: int, k: int, n: int)
    requires
        0 <= k < lanes.len(),
        0 <= n <= lanes.len(),
        forall|x: int|
            0 <= x < lanes.len() && x != k ==> !(#[trigger] lanes[x].start <= c < lanes[x].start
                + lanes[x].len),
    ensures
        owner(lanes, c, n) == if k < n && lanes[k].start <= c < lanes[k].start + lanes[k].len {
            Some(k)
        } else {
            None
        },
    decreases n,
{
    if n > 0 {
        lemma_owner(lanes, c, k, n - 1);
        if n - 1 != k {
            assert(!(lanes[n - 1].start <= c < lanes[n - 1].start + lanes[n - 1].len));
        }
    }
}

} // verus!
