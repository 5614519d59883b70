use crate::error::LedgerError;
use vstd::prelude::*;

verus! {

/// The highest service count a member can hold.
pub const MAX_COUNT: u8 = 5;

/// A named participant and how many rounds they have served since the last reset.
#[derive(Debug, Clone)]
pub struct Member {
    pub name: String,
    pub count: u8,
}

/// The mathematical value of a member.
pub struct MemberView {
    pub name: Seq<char>,
    pub count: u8,
}

impl View for Member {
    type V = MemberView;

    open spec fn view(&self) -> MemberView {
        MemberView { name: self.name@, count: self.count }
    }
}

/// The rotation state: how many people serve each round, the advisory interval
/// in days, and the members in the order they joined.
#[derive(Debug, Clone)]
pub struct Ledger {
    pub people: usize,
    pub interval: usize,
    pub members: Vec<Member>,
}

/// The mathematical value of a ledger.
pub struct LedgerView {
    pub people: usize,
    pub interval: usize,
    pub members: Seq<MemberView>,
}

pub open spec fn members_view(v: Seq<Member>) -> Seq<MemberView> {
    v.map_values(|m: Member| m@)
}

impl View for Ledger {
    type V = LedgerView;

    open spec fn view(&self) -> LedgerView {
        LedgerView {
            people: self.people,
            interval: self.interval,
            members: members_view(self.members@),
        }
    }
}

pub open spec fn counts_bounded(s: Seq<MemberView>) -> bool {
    forall|i: int| 0 <= i < s.len() ==> #[trigger] s[i].count <= MAX_COUNT
}

pub open spec fn names_distinct(s: Seq<MemberView>) -> bool {
    forall|i: int, j: int|
        0 <= i < s.len() && 0 <= j < s.len() && i != j ==> #[trigger] s[i].name != #[trigger] s[j].name
}

pub open spec fn has_name(s: Seq<MemberView>, name: Seq<char>) -> bool {
    exists|i: int| 0 <= i < s.len() && #[trigger] s[i].name == name
}

/// The sum of all service counts.
pub open spec fn sum_counts(s: Seq<MemberView>) -> int
    decreases s.len(),
{
    if s.len() == 0 {
        0
    } else {
        sum_counts(s.drop_last()) + s.last().count
    }
}

/// The mean of the counts rounded to the nearest integer, halves upwards;
/// 0 for no members.
pub open spec fn rounded_mean(s: Seq<MemberView>) -> int {
    if s.len() == 0 {
        0
    } else {
        (2 * sum_counts(s) + s.len()) / (2 * s.len() as int)
    }
}

/// The members that do not carry `name`, in their order.
pub open spec fn without_name(s: Seq<MemberView>, name: Seq<char>) -> Seq<MemberView> {
    s.filter(|m: MemberView| m.name != name)
}

/// Fresh members, all at count 0.
pub open spec fn fresh_members(names: Seq<String>) -> Seq<MemberView> {
    names.map_values(|n: String| MemberView { name: n@, count: 0 })
}

impl LedgerView {
    /// At least one person per round, every count in range, no name twice.
    pub open spec fn wf(self) -> bool {
        &&& self.people >= 1
        &&& counts_bounded(self.members)
        &&& names_distinct(self.members)
    }
}

proof fn lemma_sum_counts_bounded(s: Seq<MemberView>)
    requires
        counts_bounded(s),
    ensures
        0 <= sum_counts(s) <= 5 * s.len(),
    decreases s.len(),
{
    if s.len() > 0 {
        lemma_sum_counts_bounded(s.drop_last());
    }
}

proof fn lemma_rounded_mean_bounded(s: Seq<MemberView>)
    requires
        counts_bounded(s),
    ensures
        0 <= rounded_mean(s) <= 5,
{
    lemma_sum_counts_bounded(s);
    if s.len() > 0 {
        let n = s.len() as int;
        let t = sum_counts(s);
        assert(0 <= (2 * t + n) / (2 * n) <= 5) by (nonlinear_arith)
            requires
                n > 0,
                0 <= t <= 5 * n,
        ;
    }
}

impl Ledger {
    /// A new ledger drawing `people` per round, with the given members at count 0.
    /// Fails with `InvalidArgument` when `people` is 0, and with `DuplicateMember`
    /// when a name is given twice.
    pub fn create(people: usize, interval: usize, names: Vec<String>) -> (r: Result<
        Ledger,
        LedgerError,
    >)
        ensures
            people == 0 ==> r == Err::<Ledger, LedgerError>(LedgerError::InvalidArgument),
            people >= 1 && !names_distinct(fresh_members(names@)) ==> r == Err::<
                Ledger,
                LedgerError,
            >(LedgerError::DuplicateMember),
            people >= 1 && names_distinct(fresh_members(names@)) ==> r is Ok,
            r matches Ok(l) ==> l@.wf() && l@.people == people && l@.interval == interval
                && l@.members == fresh_members(names@),
    {
        if people == 0 {
            return Err(LedgerError::InvalidArgument);
        }
        let mut ledger = Ledger { people, interval, members: Vec::new() };
        let mut i: usize = 0;
        while i < names.len()
            invariant
                i <= names.len(),
                ledger@.wf(),
                ledger.people == people,
                ledger.interval == interval,
                ledger@.members == fresh_members(names@.take(i as int)),
            decreases names.len() - i,
        {
            let name = names[i].clone();
            proof {
                assert(names@.take(i + 1) == names@.take(i as int).push(names@[i as int]));
                assert(fresh_members(names@.take(i + 1)) =~= fresh_members(
                    names@.take(i as int),
                ).push(MemberView { name: names@[i as int]@, count: 0 }));
            }
            match ledger.add_member_at(name, 0) {
                Ok(()) => {},
                Err(e) => {
                    proof {
                        let s = ledger@.members;
                        let k = choose|k: int| 0 <= k < s.len() && #[trigger] s[k].name == names@[i as int]@;
                        let f = fresh_members(names@);
                        assert(f[k].name == s[k].name);
                        assert(f[i as int].name == names@[i as int]@);
                        assert(!names_distinct(f));
                    }
                    return Err(e);
                },
            }
            i = i + 1;
        }
        assert(names@.take(i as int) == names@);
        Ok(ledger)
    }

    /// A ledger from its parts, as read back from a token; fails with
    /// `MalformedLedgerSchema` unless the parts make a well-formed ledger.
    pub fn from_parts(people: usize, interval: usize, members: Vec<Member>) -> (r: Result<
        Ledger,
        LedgerError,
    >)
        ensures
            r matches Ok(l) ==> l@ == (LedgerView {
                people,
                interval,
                members: members_view(members@),
            }),
            r is Ok <==> (LedgerView { people, interval, members: members_view(members@) }).wf(),
            r matches Err(e) ==> e == LedgerError::MalformedLedgerSchema,
    {
        let ghost target = members_view(members@);
        if people == 0 {
            return Err(LedgerError::MalformedLedgerSchema);
        }
        let mut i: usize = 0;
        while i < members.len()
            invariant
                i <= members.len(),
                target == members_view(members@),
                forall|k: int| 0 <= k < i ==> #[trigger] target[k].count <= MAX_COUNT,
                forall|k: int, j: int|
                    0 <= k < i && 0 <= j < i && k != j ==> #[trigger] target[k].name
                        != #[trigger] target[j].name,
            decreases members.len() - i,
        {
            if members[i].count > MAX_COUNT {
                assert(target[i as int].count > MAX_COUNT);
                return Err(LedgerError::MalformedLedgerSchema);
            }
            let mut j: usize = 0;
            while j < i
                invariant
                    i < members.len(),
                    j <= i,
                    target == members_view(members@),
                    forall|k: int| 0 <= k < j ==> #[trigger] target[k].name != target[i as int].name,
                decreases i - j,
            {
                if members[j].name == members[i].name {
                    assert(target[j as int].name == target[i as int].name);
                    return Err(LedgerError::MalformedLedgerSchema);
                }
                j = j + 1;
            }
            i = i + 1;
        }
        Ok(Ledger { people, interval, members })
    }

    fn position_of(&self, name: &String) -> (r: Option<usize>)
        ensures
            r is None <==> !has_name(self@.members, name@),
            r matches Some(k) ==> k < self@.members.len() && self@.members[k as int].name
                == name@,
    {
        let mut i: usize = 0;
        while i < self.members.len()
            invariant
                i <= self.members.len(),
                forall|k: int| 0 <= k < i ==> #[trigger] self@.members[k].name != name@,
            decreases self.members.len() - i,
        {
            if self.members[i].name == *name {
                assert(self@.members[i as int].name == name@);
                return Some(i);
            }
            i = i + 1;
        }
        None
    }

    fn add_member_at(&mut self, name: String, count: u8) -> (r: Result<(), LedgerError>)
        requires
            old(self)@.wf(),
            count <= MAX_COUNT,
        ensures
            final(self)@.wf(),
            r is Err <==> has_name(old(self)@.members, name@),
            r is Err ==> r == Err::<(), LedgerError>(LedgerError::DuplicateMember) && final(self)@
                == old(self)@,
            r is Ok ==> final(self)@ == (LedgerView {
                members: old(self)@.members.push(MemberView { name: name@, count }),
                ..old(self)@
            }),
    {
        if self.position_of(&name).is_some() {
            return Err(LedgerError::DuplicateMember);
        }
        let ghost before = self@.members;
        self.members.push(Member { name, count });
        assert(self@.members =~= before.push(MemberView { name: name@, count }));
        Ok(())
    }

    /// Adds a member at the rounded mean of the current counts (0 when there are
    /// no members); fails with `DuplicateMember` when the name is taken, and then
    /// changes nothing.
    pub fn add_member(&mut self, name: String) -> (r: Result<(), LedgerError>)
        requires
            old(self)@.wf(),
        ensures
            final(self)@.wf(),
            r is Err <==> has_name(old(self)@.members, name@),
            r is Err ==> r == Err::<(), LedgerError>(LedgerError::DuplicateMember) && final(self)@
                == old(self)@,
            r is Ok ==> final(self)@ == (LedgerView {
                members: old(self)@.members.push(
                    MemberView { name: name@, count: rounded_mean(old(self)@.members) as u8 },
                ),
                ..old(self)@
            }),
    {
        let count = self.rounded_mean_count();
        self.add_member_at(name, count)
    }

    fn rounded_mean_count(&self) -> (r: u8)
        requires
            self@.wf(),
        ensures
            r as int == rounded_mean(self@.members),
            r <= MAX_COUNT,
    {
        let n = self.members.len();
        if n == 0 {
            return 0;
        }
        let mut sum: u128 = 0;
        let mut i: usize = 0;
        while i < n
            invariant
                n == self.members.len(),
                n == self@.members.len(),
                i <= n,
                self@.wf(),
                sum == sum_counts(self@.members.take(i as int)),
                sum <= 5 * i,
            decreases n - i,
        {
            proof {
                let s = self@.members;
                assert(s.take(i + 1).drop_last() == s.take(i as int));
                assert(s[i as int].count <= MAX_COUNT);
            }
            sum = sum + self.members[i].count as u128;
            i = i + 1;
        }
        assert(self@.members.take(n as int) == self@.members);
        proof {
            lemma_rounded_mean_bounded(self@.members);
        }
        let n2 = n as u128;
        ((2 * sum + n2) / (2 * n2)) as u8
    }

    /// Removes the member of that name, keeping the order of the others; fails
    /// with `MemberNotFound` when there is none, and then changes nothing.
    pub fn remove_member(&mut self, name: &String) -> (r: Result<(), LedgerError>)
        requires
            old(self)@.wf(),
        ensures
            final(self)@.wf(),
            r is Err <==> !has_name(old(self)@.members, name@),
            r is Err ==> r == Err::<(), LedgerError>(LedgerError::MemberNotFound) && final(self)@
                == old(self)@,
            r is Ok ==> final(self)@ == (LedgerView {
                members: without_name(old(self)@.members, name@),
                ..old(self)@
            }),
    {
        if self.position_of(name).is_none() {
            return Err(LedgerError::MemberNotFound);
        }
        let ghost s = self@.members;
        let mut kept: Vec<Member> = Vec::new();
        let mut i: usize = 0;
        while i < self.members.len()
            invariant
                i <= self.members.len(),
                s == self@.members,
                members_view(kept@) == without_name(s.take(i as int), name@),
            decreases self.members.len() - i,
        {
            proof {
                reveal(Seq::filter);
                assert(s.take(i + 1).drop_last() == s.take(i as int));
            }
            if self.members[i].name != *name {
                let ghost before = kept@;
                kept.push(self.members[i].clone_member());
                assert(members_view(kept@) =~= members_view(before).push(s[i as int]));
            }
            i = i + 1;
        }
        assert(s.take(i as int) == s);
        proof {
            lemma_without_name_wf(s, name@);
        }
        self.members = kept;
        Ok(())
    }
}

impl Member {
    /// A copy of the member.
    pub fn clone_member(&self) -> (r: Member)
        ensures
            r@ == self@,
    {
        Member { name: self.name.clone(), count: self.count }
    }
}

proof fn lemma_without_name_member(s: Seq<MemberView>, name: Seq<char>, i: int) -> (t: int)
    requires
        0 <= i < without_name(s, name).len(),
    ensures
        0 <= t < s.len(),
        s[t] == without_name(s, name)[i],
    decreases s.len(),
{
    reveal(Seq::filter);
    let d = s.drop_last();
    let fd = without_name(d, name);
    if s.last().name != name {
        if i < fd.len() {
            lemma_without_name_member(d, name, i)
        } else {
            s.len() - 1
        }
    } else {
        lemma_without_name_member(d, name, i)
    }
}

proof fn lemma_without_name_wf(s: Seq<MemberView>, name: Seq<char>)
    requires
        counts_bounded(s),
        names_distinct(s),
    ensures
        counts_bounded(without_name(s, name)),
        names_distinct(without_name(s, name)),
    decreases s.len(),
{
    reveal(Seq::filter);
    let f = without_name(s, name);
    assert forall|i: int| 0 <= i < f.len() implies #[trigger] f[i].count <= MAX_COUNT by {
        let t = lemma_without_name_member(s, name, i);
    }
    if s.len() > 0 {
        let d = s.drop_last();
        let fd = without_name(d, name);
        assert(names_distinct(d)) by {
            assert forall|a: int, b: int|
                0 <= a < d.len() && 0 <= b < d.len() && a != b implies #[trigger] d[a].name
                != #[trigger] d[b].name by {
                assert(d[a] == s[a] && d[b] == s[b]);
            }
        }
        assert(counts_bounded(d)) by {
            assert forall|a: int| 0 <= a < d.len() implies #[trigger] d[a].count <= MAX_COUNT by {
                assert(d[a] == s[a]);
            }
        }
        lemma_without_name_wf(d, name);
        if s.last().name != name {
            assert(f == fd.push(s.last()));
            assert forall|i: int, j: int|
                0 <= i < f.len() && 0 <= j < f.len() && i != j implies #[trigger] f[i].name
                != #[trigger] f[j].name by {
                if i < fd.len() && j < fd.len() {
                    assert(f[i] == fd[i] && f[j] == fd[j]);
                } else {
                    let k = if i < fd.len() { i } else { j };
                    let t = lemma_without_name_member(d, name, k);
                    assert(s[t] == d[t]);
                    assert(s[s.len() - 1] == s.last());
                    assert(f[k] == fd[k]);
                }
            }
        } else {
            assert(f == fd);
        }
    }
}

} // verus!
