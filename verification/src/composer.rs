//! The composer: trains a Markov chain over a pitch sequence with a sliding
//! context window, and samples a new sequence of a requested length from it.

use vstd::prelude::*;
use crate::markov::{lemma_marked_members, marked, MarkovChain};

verus! {

/// What can stop a composition.
#[derive(Debug, Clone, Copy, PartialEq, Eq)]
pub enum ComposeError {
    /// Generation reached a context that was never observed. No successor
    /// can ever be drawn for it, so instead of retrying forever the step
    /// reports the stall.
    StalledGeneration,
}

/// The FNV-1a offset basis for 64 bits.
pub const FNV_OFFSET: u64 = 0xcbf2_9ce4_8422_2325;

/// The FNV-1a prime for 64 bits.
pub const FNV_PRIME: u64 = 0x0000_0100_0000_01b3;

/// The digest of a pitch window: 64-bit FNV-1a over its bytes. Derived from
/// the content alone, so equal windows always collide and the chain is
/// keyed deterministically within a run.
pub open spec fn hash_spec(s: Seq<u8>) -> u64
    decreases s.len(),
{
    if s.len() == 0 {
        FNV_OFFSET
    } else {
        ((((hash_spec(s.drop_last()) ^ (s.last() as u64)) as u128) * (FNV_PRIME as u128))
            % 0x1_0000_0000_0000_0000) as u64
    }
}

/// Digests a pitch window into the chain's 64-bit context key.
pub fn get_hash(inp: &Vec<u8>) -> (h: u64)
    ensures
        h == hash_spec(inp@),
{
    let mut h: u64 = FNV_OFFSET;
    let mut i: usize = 0;
    proof {
        assert(inp@.subrange(0, 0) =~= Seq::<u8>::empty());
        assert(hash_spec(Seq::<u8>::empty()) == FNV_OFFSET);
    }
    while i < inp.len()
        invariant
            i <= inp@.len(),
            h == hash_spec(inp@.subrange(0, i as int)),
        decreases inp@.len() - i,
    {
        let x: u64 = h ^ (inp[i] as u64);
        let wide: u128 = (x as u128) * (FNV_PRIME as u128);
        proof {
            assert(inp@.subrange(0, i as int + 1).drop_last() =~= inp@.subrange(0, i as int));
            assert(inp@.subrange(0, i as int + 1).last() == inp@[i as int]);
        }
        h = (wide % 0x1_0000_0000_0000_0000) as u64;
        i = i + 1;
    }
    proof {
        assert(inp@.subrange(0, inp@.len() as int) =~= inp@);
    }
    h
}

/// The chain trained on `notes` with window size `degree`, through position
/// `i`: every position past the initial window marks the digest of the
/// `degree` pitches before it with the pitch there.
pub open spec fn trained_upto(notes: Seq<u8>, degree: int, i: int) -> Map<u64, Map<u8, u64>>
    decreases i - degree,
{
    if i <= degree {
        Map::empty()
    } else {
        marked(
            trained_upto(notes, degree, i - 1),
            hash_spec(notes.subrange(i - 1 - degree, i - 1)),
            notes[i - 1],
        )
    }
}

/// The seed context for generation: the last `degree` pitches of the
/// training sequence.
pub open spec fn seed_window(notes: Seq<u8>, degree: int) -> Seq<u8> {
    notes.subrange(notes.len() - degree, notes.len() as int)
}

/// The context window standing before output position `k`: the last
/// `ctx.len()` pitches of the seed context and the output before `k`.
pub open spec fn window_at(ctx: Seq<u8>, out: Seq<u8>, k: int) -> Seq<u8> {
    (ctx + out).subrange(k, k + ctx.len())
}

/// Output position `k` extends an observed transition: the pitch equals a
/// training pitch past the initial window whose preceding training window
/// digests to the same key as the window standing before the output pitch.
pub open spec fn extends_observed(notes: Seq<u8>, degree: int, out: Seq<u8>, k: int) -> bool {
    exists|p: int|
        degree <= p < notes.len() && notes[p] == out[k] && hash_spec(
            #[trigger] notes.subrange(p - degree, p),
        ) == hash_spec(window_at(seed_window(notes, degree), out, k))
}

/// The chain is closed under window slides: whenever a window's digest has a
/// bucket holding `s`, the window slid over `s` has a bucket too. Generation
/// from an observed window can then never stall.
pub open spec fn slide_closed(m: Map<u64, Map<u8, u64>>) -> bool {
    forall|w: Seq<u8>, s: u8|
        w.len() >= 1 && m.dom().contains(hash_spec(w)) && #[trigger] m[hash_spec(w)].dom().contains(
            s,
        ) ==> m.dom().contains(hash_spec(w.drop_first().push(s)))
}

/// Inverting the trained chain: a recorded digest-and-successor pair comes
/// from some training position past the initial window whose preceding
/// window carries that digest.
proof fn lemma_trained_members(notes: Seq<u8>, degree: int, i: int, h: u64, s: u8)
    requires
        0 <= degree,
        i <= notes.len(),
        trained_upto(notes, degree, i).dom().contains(h),
        trained_upto(notes, degree, i)[h].dom().contains(s),
    ensures
        exists|p: int|
            degree <= p < i && notes[p] == s && hash_spec(
                #[trigger] notes.subrange(p - degree, p),
            ) == h,
    decreases i - degree,
{
    if i <= degree {
        assert(false);
    } else {
        let prev = trained_upto(notes, degree, i - 1);
        let hh = hash_spec(notes.subrange(i - 1 - degree, i - 1));
        lemma_marked_members(prev, hh, notes[i - 1], h, s);
        if prev.dom().contains(h) && prev[h].dom().contains(s) {
            lemma_trained_members(notes, degree, i - 1, h, s);
            let p = choose|p: int|
                degree <= p < i - 1 && notes[p] == s && hash_spec(
                    #[trigger] notes.subrange(p - degree, p),
                ) == h;
            assert(degree <= p < i && notes[p] == s && hash_spec(notes.subrange(p - degree, p))
                == h);
        } else {
            assert(degree <= i - 1 < i && notes[i - 1] == s && hash_spec(
                notes.subrange(i - 1 - degree, i - 1),
            ) == h);
        }
    }
}

/// Builds the chain for `notes` under a window of `degree` pitches, and
/// returns it together with the final window (the seed context for
/// generation).
pub fn train(notes: &Vec<u8>, degree: u32) -> (res: (MarkovChain, Vec<u8>))
    requires
        1 <= degree,
        (degree as int) < notes@.len(),
    ensures
        res.0.wf(),
        res.0@ == trained_upto(notes@, degree as int, notes@.len() as int),
        res.0.total() == notes@.len() - degree,
        res.1@ == seed_window(notes@, degree as int),
{
    let mut m = MarkovChain::new();
    let mut last_note: Vec<u8> = Vec::new();
    let d = degree as usize;
    let n = notes.len();
    let mut i: usize = 0;
    while i < d
        invariant
            d == degree,
            d < notes@.len(),
            i <= d,
            last_note@ == notes@.subrange(0, i as int),
        decreases d - i,
    {
        last_note.push(notes[i]);
        proof {
            assert(notes@.subrange(0, i as int).push(notes@[i as int]) =~= notes@.subrange(
                0,
                i as int + 1,
            ));
        }
        i = i + 1;
    }
    let mut k: usize = d;
    while k < n
        invariant
            d == degree,
            1 <= d,
            d < notes@.len(),
            d <= k <= n,
            n == notes@.len(),
            last_note@ == notes@.subrange(k - d, k as int),
            m.wf(),
            m@ == trained_upto(notes@, d as int, k as int),
            m.total() == k - d,
        decreases n - k,
    {
        let note = notes[k];
        let h = get_hash(&last_note);
        m.mark(h, note);
        last_note.remove(0);
        last_note.push(note);
        proof {
            assert(notes@.subrange(k - d, k as int).remove(0).push(notes@[k as int])
                =~= notes@.subrange(k + 1 - d, k as int + 1));
        }
        k = k + 1;
    }
    (m, last_note)
}

/// Samples `length` pitches from the chain, starting from the given context
/// window and sliding it over each drawn pitch. Every output pitch is a
/// recorded successor of the digest of the window standing before it. A
/// step whose context was never observed can never make progress — the
/// unobserved context is a deterministic fact of the chain, not of the
/// draw — so instead of looping forever it stops with `StalledGeneration`;
/// in particular an unobserved seed context stalls at once, before any
/// draw, and a chain closed under window slides never stalls.
pub fn generate(chain: &MarkovChain, context: &Vec<u8>, length: u32) -> (res: Result<
    Vec<u8>,
    ComposeError,
>)
    requires
        chain.wf(),
        context@.len() >= 1,
    ensures
        res matches Ok(comp) ==> comp@.len() == length as int && (forall|k: int|
            0 <= k < comp@.len() ==> chain@.dom().contains(
                hash_spec(#[trigger] window_at(context@, comp@, k)),
            ) && chain@[hash_spec(window_at(context@, comp@, k))].dom().contains(comp@[k])),
        length == 0 ==> res is Ok,
        length >= 1 && !chain@.dom().contains(hash_spec(context@)) ==> res == Err::<
            Vec<u8>,
            ComposeError,
        >(ComposeError::StalledGeneration),
        length >= 1 && chain@.dom().contains(hash_spec(context@)) && slide_closed(chain@)
            ==> res is Ok,
{
    let ghost ctx0 = context@;
    let ghost d = context@.len() as int;
    let mut composition: Vec<u8> = Vec::new();
    let mut window: Vec<u8> = Vec::new();
    let mut i: usize = 0;
    while i < context.len()
        invariant
            i <= context@.len(),
            window@ == context@.subrange(0, i as int),
        decreases context@.len() - i,
    {
        window.push(context[i]);
        proof {
            assert(context@.subrange(0, i as int).push(context@[i as int]) =~= context@.subrange(
                0,
                i as int + 1,
            ));
        }
        i = i + 1;
    }
    let target = length as usize;
    proof {
        assert(context@.subrange(0, context@.len() as int) =~= context@);
        assert(window_at(ctx0, Seq::<u8>::empty(), 0) =~= ctx0);
    }
    while composition.len() < target
        invariant
            chain.wf(),
            ctx0 == context@,
            d == ctx0.len(),
            d >= 1,
            window@.len() == d,
            target == length,
            composition@.len() <= target,
            window@ == window_at(ctx0, composition@, composition@.len() as int),
            forall|k: int|
                0 <= k < composition@.len() ==> chain@.dom().contains(
                    hash_spec(#[trigger] window_at(ctx0, composition@, k)),
                ) && chain@[hash_spec(window_at(ctx0, composition@, k))].dom().contains(
                    composition@[k],
                ),
            chain@.dom().contains(hash_spec(ctx0)) && slide_closed(chain@)
                ==> chain@.dom().contains(hash_spec(window@)),
        decreases target - composition@.len(),
    {
        let h = get_hash(&window);
        match chain.random_successor(h) {
            Some(note) => {
                let ghost comp0 = composition@;
                let ghost w0 = window@;
                composition.push(note);
                window.remove(0);
                window.push(note);
                proof {
                    assert(window@ =~= w0.drop_first().push(note));
                    assert(composition@[comp0.len() as int] == note);
                    assert forall|k: int| 0 <= k < composition@.len() implies chain@.dom().contains(
                        hash_spec(#[trigger] window_at(ctx0, composition@, k)),
                    ) && chain@[hash_spec(window_at(ctx0, composition@, k))].dom().contains(
                        composition@[k],
                    ) by {
                        assert(window_at(ctx0, composition@, k) =~= window_at(ctx0, comp0, k));
                        if k < comp0.len() {
                            assert(composition@[k] == comp0[k]);
                            assert(chain@.dom().contains(
                                hash_spec(window_at(ctx0, comp0, k)),
                            ) && chain@[hash_spec(window_at(ctx0, comp0, k))].dom().contains(
                                comp0[k],
                            ));
                        } else {
                            assert(window_at(ctx0, comp0, k) == w0);
                            assert(chain@.dom().contains(hash_spec(w0)));
                            assert(chain@[hash_spec(w0)].dom().contains(note));
                        }
                    }
                    assert(window@ =~= window_at(ctx0, composition@, composition@.len() as int));
                    if chain@.dom().contains(hash_spec(ctx0)) && slide_closed(chain@) {
                        assert(chain@[hash_spec(w0)].dom().contains(note));
                        assert(chain@.dom().contains(hash_spec(w0.drop_first().push(note))));
                        assert(chain@.dom().contains(hash_spec(window@)));
                    }
                }
            },
            None => {
                proof {
                    if chain@.dom().contains(hash_spec(ctx0)) && slide_closed(chain@) {
                        assert(chain@.dom().contains(hash_spec(window@)));
                        assert(false);
                    }
                }
                return Err(ComposeError::StalledGeneration);
            },
        }
    }
    proof {
        if length >= 1 {
            assert(window_at(ctx0, composition@, 0) =~= ctx0);
            assert(chain@.dom().contains(hash_spec(window_at(ctx0, composition@, 0))));
        }
    }
    Ok(composition)
}

/// Trains a chain on `notes` with the given degree and samples a fresh
/// sequence of exactly `length` pitches from it. Every output pitch extends
/// an observed transition: it equals a training pitch past the initial
/// window whose preceding training window has the same digest as the window
/// standing before the output pitch. Generation that meets an unobserved
/// context stops with `StalledGeneration` instead of spinning forever; it
/// succeeds whenever the trained chain contains the final training window
/// and is closed under window slides.
pub fn compose(notes: &Vec<u8>, degree: u32, length: u32) -> (res: Result<Vec<u8>, ComposeError>)
    requires
        1 <= degree,
        (degree as int) < notes@.len(),
    ensures
        res matches Ok(comp) ==> comp@.len() == length as int && (forall|i: int|
            0 <= i < comp@.len() ==> notes@.contains(#[trigger] comp@[i])),
        res matches Ok(comp) ==> (forall|k: int|
            0 <= k < comp@.len() ==> #[trigger] extends_observed(
                notes@,
                degree as int,
                comp@,
                k,
            )),
        length == 0 ==> res is Ok,
        length >= 1 && !trained_upto(notes@, degree as int, notes@.len() as int).dom().contains(
            hash_spec(seed_window(notes@, degree as int)),
        ) ==> res == Err::<Vec<u8>, ComposeError>(ComposeError::StalledGeneration),
        length >= 1 && trained_upto(notes@, degree as int, notes@.len() as int).dom().contains(
            hash_spec(seed_window(notes@, degree as int)),
        ) && slide_closed(trained_upto(notes@, degree as int, notes@.len() as int)) ==> res is Ok,
{
    let ghost nv = notes@;
    let ghost dg = degree as int;
    let trained = train(notes, degree);
    let m = trained.0;
    let last_note = trained.1;
    let r = generate(&m, &last_note, length);
    proof {
        match &r {
            Ok(comp) => {
                assert forall|k: int| 0 <= k < comp@.len() implies #[trigger] extends_observed(
                    nv,
                    dg,
                    comp@,
                    k,
                ) by {
                    let w = window_at(seed_window(nv, dg), comp@, k);
                    assert(m@.dom().contains(hash_spec(w)));
                    assert(m@[hash_spec(w)].dom().contains(comp@[k]));
                    lemma_trained_members(nv, dg, nv.len() as int, hash_spec(w), comp@[k]);
                    let p = choose|p: int|
                        dg <= p < nv.len() && nv[p] == comp@[k] && hash_spec(
                            #[trigger] nv.subrange(p - dg, p),
                        ) == hash_spec(w);
                    assert(dg <= p < nv.len() && nv[p] == comp@[k] && hash_spec(
                        nv.subrange(p - dg, p),
                    ) == hash_spec(window_at(seed_window(nv, dg), comp@, k)));
                }
                assert forall|i: int| 0 <= i < comp@.len() implies nv.contains(
                    #[trigger] comp@[i],
                ) by {
                    assert(extends_observed(nv, dg, comp@, i));
                    let p = choose|p: int|
                        dg <= p < nv.len() && nv[p] == comp@[i] && hash_spec(
                            #[trigger] nv.subrange(p - dg, p),
                        ) == hash_spec(window_at(seed_window(nv, dg), comp@, i));
                    assert(0 <= p < nv.len() && nv[p] == comp@[i]);
                }
            },
            Err(_) => {},
        }
    }
    r
}

} // verus!
