//! A frequency model over contexts and successor symbols: `mark` accumulates
//! transition counts, `random_successor` draws a successor with probability
//! proportional to its count.

use vstd::prelude::*;
use crate::rng::rand_in_range;

verus! {

/// One successor symbol and how often it followed the bucket's context.
struct Entry {
    symbol: u8,
    count: u64,
}

/// All successors observed after one context key.
struct Bucket {
    key: u64,
    entries: Vec<Entry>,
}

/// An order-N frequency model: for every observed context key, how often
/// each successor symbol followed it. Counts only grow, one `mark` at a
/// time.
pub struct MarkovChain {
    buckets: Vec<Bucket>,
}

/// No symbol appears twice in one bucket.
spec fn distinct_symbols(es: Seq<Entry>) -> bool {
    forall|i: int, j: int| 0 <= i < j < es.len() ==> es[i].symbol != es[j].symbol
}

/// No context key appears twice.
spec fn distinct_keys(bs: Seq<Bucket>) -> bool {
    forall|i: int, j: int| 0 <= i < j < bs.len() ==> bs[i].key != bs[j].key
}

/// The mapping a bucket's entry list stands for.
spec fn entries_map(es: Seq<Entry>) -> Map<u8, u64>
    decreases es.len(),
{
    if es.len() == 0 {
        Map::empty()
    } else {
        entries_map(es.drop_last()).insert(es.last().symbol, es.last().count)
    }
}

/// The sum of a bucket's counts.
spec fn entries_sum(es: Seq<Entry>) -> int
    decreases es.len(),
{
    if es.len() == 0 {
        0
    } else {
        entries_sum(es.drop_last()) + es.last().count
    }
}

/// The mapping the bucket list stands for.
spec fn buckets_map(bs: Seq<Bucket>) -> Map<u64, Map<u8, u64>>
    decreases bs.len(),
{
    if bs.len() == 0 {
        Map::empty()
    } else {
        buckets_map(bs.drop_last()).insert(bs.last().key, entries_map(bs.last().entries@))
    }
}

/// The sum of all counts in the chain.
spec fn buckets_sum(bs: Seq<Bucket>) -> int
    decreases bs.len(),
{
    if bs.len() == 0 {
        0
    } else {
        buckets_sum(bs.drop_last()) + entries_sum(bs.last().entries@)
    }
}

/// A sound bucket: nonempty, each symbol once, every count positive.
spec fn bucket_wf(b: Bucket) -> bool {
    &&& b.entries@.len() >= 1
    &&& distinct_symbols(b.entries@)
    &&& forall|i: int| 0 <= i < b.entries@.len() ==> (#[trigger] b.entries@[i]).count >= 1
}

/// The update `mark` makes to a chain's mapping: the count of `succ` under
/// `prec` grows by one, the bucket and the entry appearing as needed.
pub open spec fn marked(m: Map<u64, Map<u8, u64>>, prec: u64, succ: u8) -> Map<u64, Map<u8, u64>> {
    let inner = if m.dom().contains(prec) {
        m[prec]
    } else {
        Map::<u8, u64>::empty()
    };
    let cnt: int = if inner.dom().contains(succ) {
        inner[succ] + 1
    } else {
        1
    };
    m.insert(prec, inner.insert(succ, cnt as u64))
}

// ---------------------------------------------------------------------------
// Facts about the entry and bucket lists
// ---------------------------------------------------------------------------

/// A symbol is in the bucket's mapping exactly when some entry carries it.
proof fn lemma_entries_map_contains(es: Seq<Entry>, sym: u8)
    ensures
        entries_map(es).dom().contains(sym) <==> exists|i: int|
            0 <= i < es.len() && es[i].symbol == sym,
    decreases es.len(),
{
    if es.len() > 0 {
        let pre = es.drop_last();
        lemma_entries_map_contains(pre, sym);
        if sym == es.last().symbol {
            assert(es[es.len() - 1].symbol == sym);
        } else {
            if entries_map(es).dom().contains(sym) {
                let i = choose|i: int| 0 <= i < pre.len() && pre[i].symbol == sym;
                assert(es[i].symbol == sym);
            }
            if exists|i: int| 0 <= i < es.len() && es[i].symbol == sym {
                let i = choose|i: int| 0 <= i < es.len() && es[i].symbol == sym;
                assert(pre[i].symbol == sym);
            }
        }
    }
}

/// With distinct symbols, the mapping sends each entry's symbol to its count.
proof fn lemma_entries_map_at(es: Seq<Entry>, i: int)
    requires
        0 <= i < es.len(),
        distinct_symbols(es),
    ensures
        entries_map(es).dom().contains(es[i].symbol),
        entries_map(es)[es[i].symbol] == es[i].count,
    decreases es.len(),
{
    if i < es.len() - 1 {
        lemma_entries_map_at(es.drop_last(), i);
    }
}

/// Updating one entry's count updates exactly its key in the mapping.
proof fn lemma_entries_map_update(es: Seq<Entry>, i: int, c: u64)
    requires
        0 <= i < es.len(),
        distinct_symbols(es),
    ensures
        entries_map(es.update(i, Entry { symbol: es[i].symbol, count: c })) == entries_map(
            es,
        ).insert(es[i].symbol, c),
    decreases es.len(),
{
    let e2 = Entry { symbol: es[i].symbol, count: c };
    let es2 = es.update(i, e2);
    if i == es.len() - 1 {
        assert(es2.drop_last() =~= es.drop_last());
        assert(es2.last() == e2);
        assert(entries_map(es.drop_last()).insert(es[i].symbol, c) =~= entries_map(
            es.drop_last(),
        ).insert(es.last().symbol, es.last().count).insert(es[i].symbol, c));
    } else {
        lemma_entries_map_update(es.drop_last(), i, c);
        assert(es2.drop_last() =~= es.drop_last().update(i, e2));
        assert(es2.last() == es.last());
        assert(entries_map(es.drop_last()).insert(es[i].symbol, c).insert(
            es.last().symbol,
            es.last().count,
        ) =~= entries_map(es.drop_last()).insert(es.last().symbol, es.last().count).insert(
            es[i].symbol,
            c,
        ));
    }
}

/// A bucket's counts sum to something nonnegative.
proof fn lemma_entries_sum_nonneg(es: Seq<Entry>)
    ensures
        entries_sum(es) >= 0,
    decreases es.len(),
{
    if es.len() > 0 {
        lemma_entries_sum_nonneg(es.drop_last());
    }
}

/// Updating one entry's count moves the sum by the difference.
proof fn lemma_entries_sum_update(es: Seq<Entry>, i: int, c: u64)
    requires
        0 <= i < es.len(),
    ensures
        entries_sum(es.update(i, Entry { symbol: es[i].symbol, count: c })) == entries_sum(es)
            - es[i].count + c,
    decreases es.len(),
{
    let e2 = Entry { symbol: es[i].symbol, count: c };
    let es2 = es.update(i, e2);
    if i == es.len() - 1 {
        assert(es2.drop_last() =~= es.drop_last());
    } else {
        lemma_entries_sum_update(es.drop_last(), i, c);
        assert(es2.drop_last() =~= es.drop_last().update(i, e2));
        assert(es2.last() == es.last());
    }
}

/// Each count is at most the bucket's sum.
proof fn lemma_count_le_sum(es: Seq<Entry>, i: int)
    requires
        0 <= i < es.len(),
    ensures
        es[i].count <= entries_sum(es),
    decreases es.len(),
{
    if i == es.len() - 1 {
        lemma_entries_sum_nonneg(es.drop_last());
    } else {
        lemma_count_le_sum(es.drop_last(), i);
    }
}

/// A prefix of the entries sums to at most the whole.
proof fn lemma_prefix_sum_le(es: Seq<Entry>, j: int)
    requires
        0 <= j <= es.len(),
    ensures
        entries_sum(es.subrange(0, j)) <= entries_sum(es),
    decreases es.len() - j,
{
    if j == es.len() {
        assert(es.subrange(0, j) =~= es);
    } else {
        lemma_prefix_sum_le(es.drop_last(), j);
        assert(es.drop_last().subrange(0, j) =~= es.subrange(0, j));
    }
}

/// The sum splits off its first count.
proof fn lemma_entries_sum_front(es: Seq<Entry>)
    requires
        es.len() >= 1,
    ensures
        entries_sum(es) == es[0].count + entries_sum(es.drop_first()),
    decreases es.len(),
{
    if es.len() == 1 {
        assert(es.drop_first() =~= Seq::<Entry>::empty());
        assert(es.drop_last() =~= Seq::<Entry>::empty());
        assert(entries_sum(Seq::<Entry>::empty()) == 0);
    } else {
        lemma_entries_sum_front(es.drop_last());
        assert(es.drop_last().drop_first() =~= es.drop_first().drop_last());
        assert(es.drop_first().last() == es.last());
        assert(es.drop_last()[0] == es[0]);
    }
}

/// A key is in the chain's mapping exactly when some bucket carries it.
proof fn lemma_buckets_map_contains(bs: Seq<Bucket>, key: u64)
    ensures
        buckets_map(bs).dom().contains(key) <==> exists|i: int|
            0 <= i < bs.len() && bs[i].key == key,
    decreases bs.len(),
{
    if bs.len() > 0 {
        let pre = bs.drop_last();
        lemma_buckets_map_contains(pre, key);
        if key == bs.last().key {
            assert(bs[bs.len() - 1].key == key);
        } else {
            if buckets_map(bs).dom().contains(key) {
                let i = choose|i: int| 0 <= i < pre.len() && pre[i].key == key;
                assert(bs[i].key == key);
            }
            if exists|i: int| 0 <= i < bs.len() && bs[i].key == key {
                let i = choose|i: int| 0 <= i < bs.len() && bs[i].key == key;
                assert(pre[i].key == key);
            }
        }
    }
}

/// With distinct keys, the mapping sends each bucket's key to its entries.
proof fn lemma_buckets_map_at(bs: Seq<Bucket>, i: int)
    requires
        0 <= i < bs.len(),
        distinct_keys(bs),
    ensures
        buckets_map(bs).dom().contains(bs[i].key),
        buckets_map(bs)[bs[i].key] == entries_map(bs[i].entries@),
    decreases bs.len(),
{
    if i < bs.len() - 1 {
        lemma_buckets_map_at(bs.drop_last(), i);
    }
}

/// Replacing one bucket's entries updates exactly its key in the mapping.
proof fn lemma_buckets_map_update(bs: Seq<Bucket>, i: int, b2: Bucket)
    requires
        0 <= i < bs.len(),
        distinct_keys(bs),
        b2.key == bs[i].key,
    ensures
        buckets_map(bs.update(i, b2)) == buckets_map(bs).insert(
            bs[i].key,
            entries_map(b2.entries@),
        ),
    decreases bs.len(),
{
    let bs2 = bs.update(i, b2);
    if i == bs.len() - 1 {
        assert(bs2.drop_last() =~= bs.drop_last());
        assert(bs2.last() == b2);
        assert(buckets_map(bs.drop_last()).insert(bs[i].key, entries_map(b2.entries@))
            =~= buckets_map(bs.drop_last()).insert(bs.last().key, entries_map(
            bs.last().entries@,
        )).insert(bs[i].key, entries_map(b2.entries@)));
    } else {
        lemma_buckets_map_update(bs.drop_last(), i, b2);
        assert(bs2.drop_last() =~= bs.drop_last().update(i, b2));
        assert(bs2.last() == bs.last());
        assert(buckets_map(bs.drop_last()).insert(bs[i].key, entries_map(b2.entries@)).insert(
            bs.last().key,
            entries_map(bs.last().entries@),
        ) =~= buckets_map(bs.drop_last()).insert(bs.last().key, entries_map(
            bs.last().entries@,
        )).insert(bs[i].key, entries_map(b2.entries@)));
    }
}

/// The chain's total is nonnegative.
proof fn lemma_buckets_sum_nonneg(bs: Seq<Bucket>)
    ensures
        buckets_sum(bs) >= 0,
    decreases bs.len(),
{
    if bs.len() > 0 {
        lemma_buckets_sum_nonneg(bs.drop_last());
        lemma_entries_sum_nonneg(bs.last().entries@);
    }
}

/// Replacing one bucket's entries moves the total by the difference.
proof fn lemma_buckets_sum_update(bs: Seq<Bucket>, i: int, b2: Bucket)
    requires
        0 <= i < bs.len(),
    ensures
        buckets_sum(bs.update(i, b2)) == buckets_sum(bs) - entries_sum(bs[i].entries@)
            + entries_sum(b2.entries@),
    decreases bs.len(),
{
    let bs2 = bs.update(i, b2);
    if i == bs.len() - 1 {
        assert(bs2.drop_last() =~= bs.drop_last());
    } else {
        lemma_buckets_sum_update(bs.drop_last(), i, b2);
        assert(bs2.drop_last() =~= bs.drop_last().update(i, b2));
        assert(bs2.last() == bs.last());
    }
}

/// Each bucket's sum is at most the chain's total.
proof fn lemma_bucket_sum_le_total(bs: Seq<Bucket>, i: int)
    requires
        0 <= i < bs.len(),
    ensures
        entries_sum(bs[i].entries@) <= buckets_sum(bs),
    decreases bs.len(),
{
    if i == bs.len() - 1 {
        lemma_buckets_sum_nonneg(bs.drop_last());
    } else {
        lemma_bucket_sum_le_total(bs.drop_last(), i);
        lemma_entries_sum_nonneg(bs.last().entries@);
    }
}

// ---------------------------------------------------------------------------
// The chain
// ---------------------------------------------------------------------------

impl View for MarkovChain {
    type V = Map<u64, Map<u8, u64>>;

    closed spec fn view(&self) -> Map<u64, Map<u8, u64>> {
        buckets_map(self.buckets@)
    }
}

/// The first bucket with the given key, if any.
fn find_bucket(buckets: &Vec<Bucket>, key: u64) -> (res: Option<usize>)
    ensures
        match res {
            Some(i) => i < buckets@.len() && buckets@[i as int].key == key,
            None => forall|j: int| 0 <= j < buckets@.len() ==> buckets@[j].key != key,
        },
{
    let mut i: usize = 0;
    while i < buckets.len()
        invariant
            i <= buckets@.len(),
            forall|j: int| 0 <= j < i ==> buckets@[j].key != key,
        decreases buckets@.len() - i,
    {
        if buckets[i].key == key {
            return Some(i);
        }
        i = i + 1;
    }
    None
}

/// The first entry with the given symbol, if any.
fn find_entry(entries: &Vec<Entry>, symbol: u8) -> (res: Option<usize>)
    ensures
        match res {
            Some(i) => i < entries@.len() && entries@[i as int].symbol == symbol,
            None => forall|j: int| 0 <= j < entries@.len() ==> entries@[j].symbol != symbol,
        },
{
    let mut i: usize = 0;
    while i < entries.len()
        invariant
            i <= entries@.len(),
            forall|j: int| 0 <= j < i ==> entries@[j].symbol != symbol,
        decreases entries@.len() - i,
    {
        if entries[i].symbol == symbol {
            return Some(i);
        }
        i = i + 1;
    }
    None
}

/// The first entry whose count reaches `r0` when the counts are consumed in
/// order: the symbol of the least index whose prefix sum of counts is at
/// least the draw — each symbol is hit by exactly its count's worth of
/// draws.
fn pick_weighted(entries: &Vec<Entry>, r0: u64) -> (sym: u8)
    requires
        entries@.len() >= 1,
        1 <= r0,
        r0 as int <= entries_sum(entries@),
    ensures
        exists|j: int|
            0 <= j < entries@.len() && sym == entries@[j].symbol && entries_sum(
                #[trigger] entries@.subrange(0, j),
            ) < r0 as int && r0 as int <= entries_sum(entries@.subrange(0, j + 1)),
        exists|i: int| 0 <= i < entries@.len() && entries@[i].symbol == sym,
{
    let ghost es = entries@;
    let n = entries.len();
    let mut j: usize = 0;
    let mut r: u64 = r0;
    proof {
        assert(es.subrange(0, es.len() as int) =~= es);
        assert(es.subrange(0, 0) =~= Seq::<Entry>::empty());
        assert(entries_sum(Seq::<Entry>::empty()) == 0);
    }
    loop
        invariant
            es == entries@,
            n == es.len(),
            j <= n,
            1 <= r,
            r as int <= entries_sum(es.subrange(j as int, es.len() as int)),
            r0 as int == entries_sum(es.subrange(0, j as int)) + r,
        decreases es.len() - j,
    {
        proof {
            if j == es.len() {
                assert(es.subrange(j as int, es.len() as int) =~= Seq::<Entry>::empty());
                assert(entries_sum(Seq::<Entry>::empty()) == 0);
                assert(false);
            }
            assert(j < es.len());
            assert(es.subrange(0, j as int + 1).drop_last() =~= es.subrange(0, j as int));
            assert(es.subrange(0, j as int + 1).last() == es[j as int]);
        }
        let c = entries[j].count;
        if c >= r {
            proof {
                assert(entries_sum(es.subrange(0, j as int)) < r0 as int);
                assert(r0 as int <= entries_sum(es.subrange(0, j as int + 1)));
            }
            return entries[j].symbol;
        }
        proof {
            let tail = es.subrange(j as int, es.len() as int);
            lemma_entries_sum_front(tail);
            assert(tail[0] == es[j as int]);
            assert(tail.drop_first() =~= es.subrange(j as int + 1, es.len() as int));
        }
        r = r - c;
        j = j + 1;
    }
}

impl MarkovChain {
    /// A sound chain: distinct keys, sound buckets, and a total that a u64
    /// draw can cover.
    pub closed spec fn wf(&self) -> bool {
        &&& distinct_keys(self.buckets@)
        &&& forall|i: int| 0 <= i < self.buckets@.len() ==> bucket_wf(#[trigger] self.buckets@[i])
        &&& buckets_sum(self.buckets@) <= 0xFFFF_FFFF_FFFF_FFFF
    }

    /// The sum of all counts: one per `mark` made so far.
    pub closed spec fn total(&self) -> int {
        buckets_sum(self.buckets@)
    }

    /// An empty chain.
    pub fn new() -> (r: MarkovChain)
        ensures
            r.wf(),
            r@ == Map::<u64, Map<u8, u64>>::empty(),
            r.total() == 0,
    {
        MarkovChain { buckets: Vec::new() }
    }

    /// Records one occurrence of `succ` after `prec`: its count grows by
    /// one, with the bucket and the entry created if absent.
    pub fn mark(&mut self, prec: u64, succ: u8)
        requires
            old(self).wf(),
            old(self).total() < 0xFFFF_FFFF_FFFF_FFFF,
        ensures
            final(self).wf(),
            final(self)@ == marked(old(self)@, prec, succ),
            final(self).total() == old(self).total() + 1,
    {
        let ghost bs0 = self.buckets@;
        let ghost m0 = self@;
        match find_bucket(&self.buckets, prec) {
            Some(bi) => {
                proof {
                    lemma_buckets_map_contains(bs0, prec);
                    lemma_buckets_map_at(bs0, bi as int);
                    lemma_bucket_sum_le_total(bs0, bi as int);
                }
                let ghost es0 = self.buckets@[bi as int].entries@;
                match find_entry(&self.buckets[bi].entries, succ) {
                    Some(ei) => {
                        let c = self.buckets[bi].entries[ei].count;
                        proof {
                            lemma_count_le_sum(es0, ei as int);
                            lemma_entries_map_at(es0, ei as int);
                        }
                        let b = &mut self.buckets[bi];
                        b.entries.set(ei, Entry { symbol: succ, count: c + 1 });
                        proof {
                            let b2 = self.buckets@[bi as int];
                            assert(b2.key == prec);
                            assert(b2.entries@ == es0.update(
                                ei as int,
                                Entry { symbol: succ, count: (c + 1) as u64 },
                            ));
                            lemma_entries_map_update(es0, ei as int, (c + 1) as u64);
                            lemma_entries_sum_update(es0, ei as int, (c + 1) as u64);
                            lemma_buckets_map_update(bs0, bi as int, b2);
                            lemma_buckets_sum_update(bs0, bi as int, b2);
                            assert(self@ =~= marked(m0, prec, succ));
                        }
                    },
                    None => {
                        proof {
                            lemma_entries_map_contains(es0, succ);
                        }
                        let b = &mut self.buckets[bi];
                        b.entries.push(Entry { symbol: succ, count: 1 });
                        proof {
                            let b2 = self.buckets@[bi as int];
                            assert(b2.key == prec);
                            assert(b2.entries@ == es0.push(Entry { symbol: succ, count: 1u64 }));
                            assert(b2.entries@.drop_last() =~= es0);
                            lemma_buckets_map_update(bs0, bi as int, b2);
                            lemma_buckets_sum_update(bs0, bi as int, b2);
                            assert(self@ =~= marked(m0, prec, succ));
                        }
                    },
                }
            },
            None => {
                proof {
                    lemma_buckets_map_contains(bs0, prec);
                    lemma_buckets_sum_nonneg(bs0);
                }
                let mut es: Vec<Entry> = Vec::new();
                es.push(Entry { symbol: succ, count: 1 });
                let ghost es_view = es@;
                self.buckets.push(Bucket { key: prec, entries: es });
                proof {
                    assert(self.buckets@.drop_last() =~= bs0);
                    assert(es_view.drop_last() =~= Seq::<Entry>::empty());
                    assert(entries_map(Seq::<Entry>::empty()) == Map::<u8, u64>::empty());
                    assert(entries_sum(Seq::<Entry>::empty()) == 0);
                    assert(self@ =~= marked(m0, prec, succ));
                }
            },
        }
    }

    /// Draws a successor of `prec` with probability proportional to its
    /// count, or `None` exactly when `prec` was never observed. Once the
    /// context has a bucket, some recorded successor is always returned.
    pub fn random_successor(&self, prec: u64) -> (res: Option<u8>)
        requires
            self.wf(),
        ensures
            res is Some <==> self@.dom().contains(prec),
            res matches Some(sym) ==> self@[prec].dom().contains(sym),
    {
        let ghost bs = self.buckets@;
        match find_bucket(&self.buckets, prec) {
            None => {
                proof {
                    lemma_buckets_map_contains(bs, prec);
                }
                None
            },
            Some(bi) => {
                proof {
                    lemma_buckets_map_contains(bs, prec);
                    lemma_buckets_map_at(bs, bi as int);
                    lemma_bucket_sum_le_total(bs, bi as int);
                }
                let entries = &self.buckets[bi].entries;
                let ghost es = entries@;
                let mut total: u64 = 0;
                let mut j: usize = 0;
                proof {
                    assert(es.subrange(0, 0) =~= Seq::<Entry>::empty());
                    assert(entries_sum(Seq::<Entry>::empty()) == 0);
                }
                while j < entries.len()
                    invariant
                        es == entries@,
                        j <= es.len(),
                        entries_sum(es) <= 0xFFFF_FFFF_FFFF_FFFF,
                        total == entries_sum(es.subrange(0, j as int)),
                    decreases es.len() - j,
                {
                    let c = entries[j].count;
                    proof {
                        assert(es.subrange(0, j as int + 1).drop_last() =~= es.subrange(
                            0,
                            j as int,
                        ));
                        assert(es.subrange(0, j as int + 1).last() == es[j as int]);
                        lemma_prefix_sum_le(es, j as int + 1);
                        lemma_entries_sum_nonneg(es.subrange(0, j as int));
                    }
                    total = total + c;
                    j = j + 1;
                }
                proof {
                    assert(es.subrange(0, es.len() as int) =~= es);
                    lemma_count_le_sum(es, 0);
                }
                let r = rand_in_range(1, total);
                let sym = pick_weighted(entries, r);
                proof {
                    lemma_entries_map_contains(es, sym);
                }
                Some(sym)
            },
        }
    }
}

// ---------------------------------------------------------------------------
// Laws
// ---------------------------------------------------------------------------

/// A context observed with exactly one distinct successor always yields that
/// successor: the guarantees of `random_successor` force the degenerate
/// distribution's only symbol out.
pub proof fn lemma_degenerate_successor(
    m: Map<u64, Map<u8, u64>>,
    prec: u64,
    res: Option<u8>,
    x: u8,
)
    requires
        m.dom().contains(prec),
        m[prec].dom() =~= set![x],
        res is Some <==> m.dom().contains(prec),
        res matches Some(sym) ==> m[prec].dom().contains(sym),
    ensures
        res == Some::<u8>(x),
{
    match res {
        Some(sym) => {
            assert(m[prec].dom().contains(sym));
            assert(set![x].contains(sym));
        },
        None => {
            assert(false);
        },
    }
}

/// Marking adds exactly one membership: a context-and-symbol pair of the
/// updated chain was already in the chain, or is the marked pair itself.
pub proof fn lemma_marked_members(m: Map<u64, Map<u8, u64>>, prec: u64, succ: u8, k: u64, s: u8)
    requires
        marked(m, prec, succ).dom().contains(k),
        marked(m, prec, succ)[k].dom().contains(s),
    ensures
        (m.dom().contains(k) && m[k].dom().contains(s)) || (k == prec && s == succ),
{
    if k == prec && s != succ {
        let inner = if m.dom().contains(prec) {
            m[prec]
        } else {
            Map::<u8, u64>::empty()
        };
        assert(inner.dom().contains(s));
    }
}

} // verus!
