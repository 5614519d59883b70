use crate::error::LedgerError;
use crate::ledger::{
    counts_bounded, members_view, names_distinct, Ledger, LedgerView, MemberView, MAX_COUNT,
};
use rand::seq::SliceRandom;
use rand::SeedableRng;
use rand_chacha::ChaCha8Rng;
use vstd::prelude::*;

verus! {

/// What one round decided: whether every count was reset first, and the
/// indices of the members chosen, in the order they were drawn.
#[derive(Debug, Clone)]
pub struct Assignment {
    pub reset: bool,
    pub chosen: Vec<usize>,
}

/// Whether some member has reached the top count, so that a round starts with a reset.
pub open spec fn needs_reset(s: Seq<MemberView>) -> bool {
    exists|i: int| 0 <= i < s.len() && #[trigger] s[i].count >= MAX_COUNT
}

/// The members as they stand after the reset step of a round.
pub open spec fn after_reset(s: Seq<MemberView>) -> Seq<MemberView> {
    if needs_reset(s) {
        s.map_values(|m: MemberView| MemberView { name: m.name, count: 0 })
    } else {
        s
    }
}

/// The lowest count (255 for no members).
pub open spec fn min_count(s: Seq<MemberView>) -> u8
    decreases s.len(),
{
    if s.len() == 0 {
        255
    } else {
        let m = min_count(s.drop_last());
        if s.last().count < m {
            s.last().count
        } else {
            m
        }
    }
}

/// The indices below `n` of the members whose count is `m`, in ascending order.
pub open spec fn pool_upto(s: Seq<MemberView>, m: u8, n: int) -> Seq<usize>
    decreases n,
{
    if n <= 0 {
        Seq::empty()
    } else if s[n - 1].count == m {
        pool_upto(s, m, n - 1).push((n - 1) as usize)
    } else {
        pool_upto(s, m, n - 1)
    }
}

/// The candidate pool: the indices of the members tied at the lowest count, in order.
pub open spec fn pool_of(s: Seq<MemberView>) -> Seq<usize> {
    pool_upto(s, min_count(s), s.len() as int)
}

/// A count after one more round served: past the top it wraps to 0.
pub open spec fn bump(c: u8) -> u8 {
    if c >= MAX_COUNT {
        0
    } else {
        (c + 1) as u8
    }
}

/// The members after each pick, in turn, has served once more.
pub open spec fn apply_picks(s: Seq<MemberView>, picks: Seq<usize>) -> Seq<MemberView>
    decreases picks.len(),
{
    if picks.len() == 0 {
        s
    } else {
        let t = apply_picks(s, picks.drop_last());
        let i = picks.last() as int;
        if i < t.len() {
            t.update(i, MemberView { name: t[i].name, count: bump(t[i].count) })
        } else {
            t
        }
    }
}

/// How many members a round draws from a pool of `pool_len`.
pub open spec fn draw_len(people: usize, pool_len: int) -> int {
    if (people as int) < pool_len {
        people as int
    } else {
        pool_len
    }
}

/// The order in which the seeded shuffle puts `v`.
pub uninterp spec fn seeded_shuffle_of(seed: u64, v: Seq<usize>) -> Seq<usize>;

/// Relies on rand's `SliceRandom::shuffle` driven by `ChaCha8Rng::seed_from_u64`:
/// a permutation of `v` that the seed and `v` fix.
#[verifier::external_body]
fn shuffle_seeded(seed: u64, v: Vec<usize>) -> (r: Vec<usize>)
    ensures
        r@ == seeded_shuffle_of(seed, v@),
        r@.to_multiset() == v@.to_multiset(),
{
    let mut v = v;
    let mut rng = ChaCha8Rng::seed_from_u64(seed);
    v.shuffle(&mut rng);
    v
}

/// Relies on rand's `SliceRandom::shuffle` driven by `thread_rng`: some permutation of `v`.
#[verifier::external_body]
fn shuffle_unseeded(v: Vec<usize>) -> (r: Vec<usize>)
    ensures
        r@.to_multiset() == v@.to_multiset(),
{
    let mut v = v;
    v.shuffle(&mut rand::thread_rng());
    v
}

/// The lowest count is at most every count, and some member holds it.
pub proof fn lemma_min_count(s: Seq<MemberView>)
    ensures
        forall|i: int| 0 <= i < s.len() ==> min_count(s) <= #[trigger] s[i].count,
        s.len() > 0 ==> exists|i: int| 0 <= i < s.len() && #[trigger] s[i].count == min_count(s),
    decreases s.len(),
{
    if s.len() > 0 {
        let d = s.drop_last();
        lemma_min_count(d);
        assert forall|i: int| 0 <= i < s.len() implies min_count(s) <= #[trigger] s[i].count by {
            if i < d.len() {
                assert(d[i] == s[i]);
            }
        }
        if d.len() > 0 && min_count(d) <= s.last().count {
            let k = choose|k: int| 0 <= k < d.len() && #[trigger] d[k].count == min_count(d);
            assert(s[k] == d[k]);
        } else {
            assert(s[s.len() - 1].count == min_count(s));
        }
    }
}

proof fn lemma_pool_upto(s: Seq<MemberView>, m: u8, n: int)
    requires
        0 <= n <= s.len(),
        s.len() <= usize::MAX,
    ensures
        forall|k: int|
            0 <= k < pool_upto(s, m, n).len() ==> (#[trigger] pool_upto(s, m, n)[k] as int) < n
                && s[pool_upto(s, m, n)[k] as int].count == m,
        forall|i: int| 0 <= i < n && s[i].count == m ==> pool_upto(s, m, n).contains(i as usize),
    decreases n,
{
    if n > 0 {
        lemma_pool_upto(s, m, n - 1);
        let p = pool_upto(s, m, n - 1);
        if s[n - 1].count == m {
            assert(pool_upto(s, m, n) == p.push((n - 1) as usize));
            assert(pool_upto(s, m, n)[p.len() as int] == (n - 1) as usize);
            assert(forall|k: int| 0 <= k < p.len() ==> pool_upto(s, m, n)[k] == #[trigger] p[k]);
            assert forall|i: int| 0 <= i < n && s[i].count == m implies pool_upto(
                s,
                m,
                n,
            ).contains(i as usize) by {
                if i < n - 1 {
                    let j = choose|j: int| 0 <= j < p.len() && p[j] == i as usize;
                    assert(pool_upto(s, m, n)[j] == i as usize);
                }
            }
        }
    }
}

/// The candidate pool holds exactly the members whose count is the lowest one,
/// and no member has a count below theirs.
pub proof fn lemma_pool_is_minimum(s: Seq<MemberView>)
    requires
        s.len() <= usize::MAX,
    ensures
        forall|k: usize|
            #[trigger] pool_of(s).contains(k) ==> (k as int) < s.len() && s[k as int].count
                == min_count(s),
        forall|k: int| 0 <= k < s.len() && s[k].count == min_count(s) ==> pool_of(s).contains(
            k as usize,
        ),
        forall|i: int| 0 <= i < s.len() ==> min_count(s) <= #[trigger] s[i].count,
        s.len() > 0 ==> pool_of(s).len() > 0,
{
    lemma_min_count(s);
    lemma_pool_upto(s, min_count(s), s.len() as int);
    if s.len() > 0 {
        let i = choose|i: int| 0 <= i < s.len() && #[trigger] s[i].count == min_count(s);
        assert(pool_of(s).contains(i as usize));
    }
}

/// Counts stay in range whatever members are picked.
pub proof fn lemma_apply_picks_bounded(s: Seq<MemberView>, picks: Seq<usize>)
    requires
        counts_bounded(s),
    ensures
        counts_bounded(apply_picks(s, picks)),
        apply_picks(s, picks).len() == s.len(),
        forall|i: int| 0 <= i < s.len() ==> #[trigger] apply_picks(s, picks)[i].name == s[i].name,
    decreases picks.len(),
{
    if picks.len() > 0 {
        lemma_apply_picks_bounded(s, picks.drop_last());
    }
}

/// The candidate pool of a round on the members `s`, after the reset step.
pub open spec fn round_pool(s: Seq<MemberView>) -> Seq<usize> {
    pool_of(after_reset(s))
}

/// What a round on `l` with the seed `seed` gives: the ledger after it, the
/// chosen indices in drawing order, and whether it began with a reset.
pub open spec fn seeded_round(l: LedgerView, seed: u64) -> (LedgerView, Seq<usize>, bool) {
    let pool = round_pool(l.members);
    let chosen = seeded_shuffle_of(seed, pool).take(draw_len(l.people, pool.len() as int));
    (
        LedgerView { members: apply_picks(after_reset(l.members), chosen), ..l },
        chosen,
        needs_reset(l.members),
    )
}

/// Two seeded rounds on equal ledgers with the same seed end in equal ledgers,
/// with equal choices in equal order.
pub proof fn lemma_seeded_round_deterministic(a: LedgerView, b: LedgerView, seed: u64)
    requires
        a == b,
    ensures
        seeded_round(a, seed) == seeded_round(b, seed),
{
}

/// Every member a round chooses was tied at the lowest count after the reset
/// step, and no member had a lower count.
pub proof fn lemma_round_picks_minimum(s: Seq<MemberView>, chosen: Seq<usize>)
    requires
        s.len() <= usize::MAX,
        forall|k: int| 0 <= k < chosen.len() ==> round_pool(s).contains(#[trigger] chosen[k]),
    ensures
        forall|k: int|
            0 <= k < chosen.len() ==> (#[trigger] chosen[k] as int) < s.len() && after_reset(
                s,
            )[chosen[k] as int].count == min_count(after_reset(s)),
        forall|k: int, i: int|
            0 <= k < chosen.len() && 0 <= i < s.len() ==> after_reset(s)[#[trigger] chosen[k] as int].count
                <= #[trigger] after_reset(s)[i].count,
{
    lemma_pool_is_minimum(after_reset(s));
    assert forall|k: int, i: int|
        0 <= k < chosen.len() && 0 <= i < s.len() implies after_reset(s)[#[trigger] chosen[k] as int].count
        <= #[trigger] after_reset(s)[i].count by {
        assert(round_pool(s).contains(chosen[k]));
    }
}

impl Ledger {
    /// The reset step of a round: when some count has reached the top, every
    /// count goes back to 0. Says whether it did.
    pub fn reset_if_needed(&mut self) -> (r: bool)
        requires
            old(self)@.wf(),
        ensures
            final(self)@.wf(),
            r == needs_reset(old(self)@.members),
            final(self)@ == (LedgerView { members: after_reset(old(self)@.members), ..old(self)@ }),
            r ==> forall|i: int|
                0 <= i < final(self)@.members.len() ==> #[trigger] final(self)@.members[i].count == 0,
    {
        let ghost s = self@.members;
        let mut found = false;
        let mut i: usize = 0;
        while i < self.members.len()
            invariant
                i <= self.members.len(),
                s == self@.members,
                found <==> exists|k: int| 0 <= k < i && #[trigger] s[k].count >= MAX_COUNT,
            decreases self.members.len() - i,
        {
            assert(s[i as int].count == self.members@[i as int].count);
            if self.members[i].count >= MAX_COUNT {
                found = true;
            }
            i = i + 1;
        }
        if !found {
            return false;
        }
        let mut j: usize = 0;
        while j < self.members.len()
            invariant
                j <= self.members.len(),
                self.members.len() == s.len(),
                self.people == old(self).people,
                self.interval == old(self).interval,
                forall|k: int| 0 <= k < j ==> #[trigger] self@.members[k] == (MemberView { name: s[k].name, count: 0 }),
                forall|k: int| j <= k < s.len() ==> #[trigger] self@.members[k] == s[k],
            decreases self.members.len() - j,
        {
            let ghost before = self@.members;
            self.members[j].count = 0;
            assert(self@.members =~= before.update(
                j as int,
                MemberView { name: before[j as int].name, count: 0 },
            ));
            j = j + 1;
        }
        assert(self@.members =~= after_reset(s));
        proof {
            let t = self@.members;
            assert forall|a: int, b: int|
                0 <= a < t.len() && 0 <= b < t.len() && a != b implies #[trigger] t[a].name
                != #[trigger] t[b].name by {
                assert(t[a].name == s[a].name && t[b].name == s[b].name);
            }
        }
        true
    }

    /// The candidate pool: the indices of the members tied at the lowest count, in order.
    pub fn candidate_pool(&self) -> (r: Vec<usize>)
        ensures
            r@ == pool_of(self@.members),
    {
        let ghost s = self@.members;
        let mut m: u8 = 255;
        let mut i: usize = 0;
        while i < self.members.len()
            invariant
                i <= self.members.len(),
                s == self@.members,
                m == min_count(s.take(i as int)),
            decreases self.members.len() - i,
        {
            assert(s.take(i + 1).drop_last() == s.take(i as int));
            if self.members[i].count < m {
                m = self.members[i].count;
            }
            i = i + 1;
        }
        assert(s.take(i as int) == s);
        let mut pool: Vec<usize> = Vec::new();
        let mut j: usize = 0;
        while j < self.members.len()
            invariant
                j <= self.members.len(),
                s == self@.members,
                m == min_count(s),
                pool@ == pool_upto(s, m, j as int),
            decreases self.members.len() - j,
        {
            if self.members[j].count == m {
                pool.push(j);
            }
            j = j + 1;
        }
        pool
    }

    /// The take and update steps of a round: the first `people` entries of
    /// `order` (all of them if there are fewer) each serve once more, in turn.
    /// Returns those entries.
    pub fn select_in_order(&mut self, order: &Vec<usize>) -> (r: Vec<usize>)
        requires
            old(self)@.wf(),
            forall|k: int| 0 <= k < order@.len() ==> (#[trigger] order@[k] as int) < old(
                self,
            )@.members.len(),
        ensures
            final(self)@.wf(),
            r@ == order@.take(draw_len(old(self)@.people, order@.len() as int)),
            final(self)@ == (LedgerView {
                members: apply_picks(old(self)@.members, r@),
                ..old(self)@
            }),
    {
        let ghost s = self@.members;
        let take = if self.people < order.len() {
            self.people
        } else {
            order.len()
        };
        let mut chosen: Vec<usize> = Vec::new();
        let mut j: usize = 0;
        while j < take
            invariant
                take <= order.len(),
                j <= take,
                take == draw_len(old(self)@.people, order@.len() as int),
                forall|k: int| 0 <= k < order@.len() ==> (#[trigger] order@[k] as int) < s.len(),
                chosen@ == order@.take(j as int),
                self@ == (LedgerView { members: apply_picks(s, chosen@), ..old(self)@ }),
                counts_bounded(s),
                names_distinct(s),
            decreases take - j,
        {
            proof {
                lemma_apply_picks_bounded(s, chosen@);
            }
            let i = order[j];
            let c = self.members[i].count;
            let next: u8 = if c >= MAX_COUNT {
                0
            } else {
                c + 1
            };
            let ghost before = self@.members;
            self.members[i].count = next;
            chosen.push(i);
            proof {
                assert(order@.take(j + 1) == order@.take(j as int).push(i));
                assert(chosen@.drop_last() == order@.take(j as int));
                assert(self@.members =~= before.update(
                    i as int,
                    MemberView { name: before[i as int].name, count: bump(before[i as int].count) },
                ));
            }
            j = j + 1;
        }
        proof {
            lemma_apply_picks_bounded(s, chosen@);
            let t = self@.members;
            assert forall|a: int, b: int|
                0 <= a < t.len() && 0 <= b < t.len() && a != b implies #[trigger] t[a].name
                != #[trigger] t[b].name by {
                assert(t[a].name == s[a].name && t[b].name == s[b].name);
            }
        }
        chosen
    }

    /// One round. Fails with `NoMembers` on a ledger without members, and then
    /// changes nothing. Otherwise it resets every count when one has reached the
    /// top, shuffles the members tied at the lowest count (by the seed when one
    /// is given), lets the first `people` of them serve once more, and returns
    /// them in drawing order.
    pub fn assign(&mut self, seed: Option<u64>) -> (r: Result<Assignment, LedgerError>)
        requires
            old(self)@.wf(),
        ensures
            final(self)@.wf(),
            old(self)@.members.len() == 0 ==> r is Err && final(self)@ == old(self)@,
            r matches Err(e) ==> e == LedgerError::NoMembers,
            old(self)@.members.len() > 0 ==> r is Ok,
            r matches Ok(a) ==> a.reset == needs_reset(old(self)@.members),
            r matches Ok(a) ==> a.chosen@.len() == draw_len(
                old(self)@.people,
                round_pool(old(self)@.members).len() as int,
            ),
            r matches Ok(a) ==> forall|k: int|
                0 <= k < a.chosen@.len() ==> round_pool(old(self)@.members).contains(
                    #[trigger] a.chosen@[k],
                ),
            r matches Ok(a) ==> final(self)@ == (LedgerView {
                members: apply_picks(after_reset(old(self)@.members), a.chosen@),
                ..old(self)@
            }),
            r is Ok && seed is Some ==> (final(self)@, r->Ok_0.chosen@, r->Ok_0.reset) == seeded_round(
                old(self)@,
                seed->0,
            ),
    {
        if self.members.len() == 0 {
            return Err(LedgerError::NoMembers);
        }
        let reset = self.reset_if_needed();
        let pool = self.candidate_pool();
        proof {
            lemma_pool_is_minimum(self@.members);
        }
        let ghost pool_seq = pool@;
        let order = match seed {
            Some(sd) => shuffle_seeded(sd, pool),
            None => shuffle_unseeded(pool),
        };
        proof {
            order@.to_multiset_ensures();
            pool_seq.to_multiset_ensures();
            assert forall|k: int| 0 <= k < order@.len() implies pool_seq.contains(
                #[trigger] order@[k],
            ) by {
                assert(order@.contains(order@[k]));
                assert(order@.to_multiset().count(order@[k]) > 0);
            }
        }
        let chosen = self.select_in_order(&order);
        proof {
            assert forall|k: int| 0 <= k < chosen@.len() implies pool_seq.contains(
                #[trigger] chosen@[k],
            ) by {
                assert(chosen@[k] == order@[k]);
            }
        }
        Ok(Assignment { reset, chosen })
    }
}

} // verus!
