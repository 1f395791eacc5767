use std::collections::HashMap;
use vstd::prelude::*;
use vstd::seq_lib::seq_to_set_is_finite;
use vstd::set::fold::{is_fun_commutative, lemma_fold_empty, lemma_fold_insert};

use crate::log::{log_merge, LogState};
use crate::message::{TxnEntry, TxnType};

verus! {

broadcast use vstd::std_specs::hash::group_hash_axioms;

/// One increment of the grow-only counter: an identifier unique across the
/// cluster, and the amount it adds.
#[derive(Debug)]
pub struct IncrementRecord {
    pub id: String,
    pub delta: u64,
}

impl View for IncrementRecord {
    type V = (Seq<char>, u64);

    open spec fn view(&self) -> (Seq<char>, u64) {
        (self.id@, self.delta)
    }
}

impl IncrementRecord {
    pub fn new(id: String, delta: u64) -> (r: IncrementRecord)
        ensures
            r@ == (id@, delta),
    {
        IncrementRecord { id, delta }
    }

    pub fn duplicate(&self) -> (r: IncrementRecord)
        ensures
            r@ == self@,
    {
        IncrementRecord { id: self.id.clone(), delta: self.delta }
    }
}

/// The set of records that a sequence of records holds.
pub open spec fn record_set(recs: Seq<IncrementRecord>) -> Set<(Seq<char>, u64)> {
    recs.map_values(|r: IncrementRecord| r@).to_set()
}

/// The identifiers of a set of records.
pub open spec fn record_ids(s: Set<(Seq<char>, u64)>) -> Set<Seq<char>> {
    s.map(|r: (Seq<char>, u64)| r.0)
}

/// The sum of the deltas of a finite set of records.
pub open spec fn record_sum(s: Set<(Seq<char>, u64)>) -> int {
    s.fold(0int, |acc: int, r: (Seq<char>, u64)| acc + r.1)
}

/// Counter merge: the local records, plus each remote record whose
/// identifier the local side does not hold yet.
pub open spec fn counter_merge(local: Set<(Seq<char>, u64)>, remote: Set<(Seq<char>, u64)>) -> Set<
    (Seq<char>, u64),
> {
    local + remote.filter(|r: (Seq<char>, u64)| !record_ids(local).contains(r.0))
}

/// Two record sets agree: an identifier names the same delta in both.
pub open spec fn records_agree(a: Set<(Seq<char>, u64)>, b: Set<(Seq<char>, u64)>) -> bool {
    forall|x: (Seq<char>, u64), y: (Seq<char>, u64)|
        #![trigger a.contains(x), b.contains(y)]
        a.contains(x) && b.contains(y) && x.0 == y.0 ==> x.1 == y.1
}

pub open spec fn ids_unique(recs: Seq<IncrementRecord>) -> bool {
    forall|i: int, j: int|
        0 <= i < recs.len() && 0 <= j < recs.len() && i != j ==> recs[i].id@ != recs[j].id@
}

proof fn lemma_sum_insert(s: Set<(Seq<char>, u64)>, r: (Seq<char>, u64))
    requires
        s.finite(),
        !s.contains(r),
    ensures
        record_sum(s.insert(r)) == record_sum(s) + r.1,
{
    let f = |acc: int, r: (Seq<char>, u64)| acc + r.1;
    assert(is_fun_commutative(f));
    lemma_fold_insert(s, 0int, f, r);
}

proof fn lemma_sum_empty()
    ensures
        record_sum(Set::empty()) == 0,
{
    let f = |acc: int, r: (Seq<char>, u64)| acc + r.1;
    lemma_fold_empty(0int, f);
}

/// The sum over a subset is no larger than the sum over the whole set.
proof fn lemma_sum_subset(a: Set<(Seq<char>, u64)>, b: Set<(Seq<char>, u64)>)
    requires
        b.finite(),
        a.subset_of(b),
    ensures
        record_sum(a) <= record_sum(b),
    decreases b.len(),
{
    if a =~= b {
    } else {
        let x = choose|x: (Seq<char>, u64)| b.contains(x) && !a.contains(x);
        let rest = b.remove(x);
        assert(rest.insert(x) =~= b);
        lemma_sum_insert(rest, x);
        lemma_sum_subset(a, rest);
    }
}

proof fn lemma_record_set_push(recs: Seq<IncrementRecord>, r: IncrementRecord)
    ensures
        record_set(recs.push(r)) == record_set(recs).insert(r@),
        record_set(recs.push(r)).finite(),
{
    let f = |x: IncrementRecord| x@;
    assert(recs.push(r).map_values(f) =~= recs.map_values(f).push(r@));
    recs.map_values(f).lemma_push_to_set_commute(r@);
    seq_to_set_is_finite(recs.push(r).map_values(f));
}

proof fn lemma_record_set_contains(recs: Seq<IncrementRecord>, x: (Seq<char>, u64))
    ensures
        record_set(recs).contains(x) <==> exists|i: int| 0 <= i < recs.len() && recs[i]@ == x,
        record_set(recs).finite(),
{
    let f = |x: IncrementRecord| x@;
    seq_to_set_is_finite(recs.map_values(f));
    if record_set(recs).contains(x) {
        let i = choose|i: int| 0 <= i < recs.map_values(f).len() && recs.map_values(f)[i] == x;
        assert(recs[i]@ == x);
    }
    if exists|i: int| 0 <= i < recs.len() && recs[i]@ == x {
        let i = choose|i: int| 0 <= i < recs.len() && recs[i]@ == x;
        assert(recs.map_values(f)[i] == x);
    }
}

/// Merging a counter with itself changes nothing: neither its records nor its total.
pub proof fn lemma_counter_merge_idempotent(s: Set<(Seq<char>, u64)>)
    ensures
        counter_merge(s, s) == s,
        record_sum(counter_merge(s, s)) == record_sum(s),
{
    assert(counter_merge(s, s) =~= s);
}

/// Where identifiers agree, a counter merge is the plain union of the records.
pub proof fn lemma_counter_merge_is_union(a: Set<(Seq<char>, u64)>, b: Set<(Seq<char>, u64)>)
    requires
        records_agree(a, b),
    ensures
        counter_merge(a, b) == a + b,
{
    assert forall|x: (Seq<char>, u64)| (a + b).contains(x) implies counter_merge(a, b).contains(
        x,
    ) by {
        if b.contains(x) && !a.contains(x) && record_ids(a).contains(x.0) {
            let y = choose|y: (Seq<char>, u64)| a.contains(y) && y.0 == x.0;
            assert(y.1 == x.1);
            assert(y == x);
        }
    }
    assert(counter_merge(a, b) =~= a + b);
}

/// Counter merges of snapshots whose identifiers agree can be applied in
/// any order, grouped in any way and repeated: each result is the union of
/// all records seen, and so is its total.
pub proof fn lemma_counter_merge_order_free(
    a: Set<(Seq<char>, u64)>,
    b: Set<(Seq<char>, u64)>,
    c: Set<(Seq<char>, u64)>,
)
    requires
        records_agree(a, b),
        records_agree(b, c),
        records_agree(a, c),
        records_agree(b, b),
    ensures
        counter_merge(a, b) == counter_merge(b, a),
        counter_merge(counter_merge(a, b), c) == counter_merge(a, counter_merge(b, c)),
        counter_merge(counter_merge(a, b), c) == a + b + c,
        counter_merge(counter_merge(a, b), b) == counter_merge(a, b),
        record_sum(counter_merge(counter_merge(a, b), c)) == record_sum(a + b + c),
{
    lemma_counter_merge_is_union(a, b);
    assert(records_agree(b, a));
    lemma_counter_merge_is_union(b, a);
    lemma_counter_merge_is_union(b, c);
    assert(records_agree(a + b, c));
    lemma_counter_merge_is_union(a + b, c);
    assert(records_agree(a, b + c));
    lemma_counter_merge_is_union(a, b + c);
    assert(records_agree(a + b, b));
    lemma_counter_merge_is_union(a + b, b);
    assert(a + b + b =~= a + b);
    assert(a + (b + c) =~= a + b + c);
    assert(a + b =~= b + a);
}

/// A grow-only counter: the records applied so far and their running total.
#[derive(Debug)]
pub struct GCounter {
    records: Vec<IncrementRecord>,
    total: u64,
}

impl View for GCounter {
    type V = Set<(Seq<char>, u64)>;

    closed spec fn view(&self) -> Set<(Seq<char>, u64)> {
        record_set(self.records@)
    }
}

impl GCounter {
    /// A well-formed counter's total is the sum over its records, which are finite.
    pub proof fn lemma_total(&self)
        requires
            self.wf(),
        ensures
            self.total_spec() == record_sum(self@),
            self@.finite(),
            records_agree(self@, self@),
    {
        lemma_record_set_contains(self.records@, (Seq::empty(), 0u64));
        assert forall|x: (Seq<char>, u64), y: (Seq<char>, u64)|
            self@.contains(x) && self@.contains(y) && x.0 == y.0 implies x.1 == y.1 by {
            lemma_record_set_contains(self.records@, x);
            lemma_record_set_contains(self.records@, y);
        }
    }

    /// Identifiers are unique and the total is the sum of the records' deltas.
    #[verifier::type_invariant]
    pub closed spec fn wf(&self) -> bool {
        &&& ids_unique(self.records@)
        &&& self.total == record_sum(self@)
    }

    pub closed spec fn total_spec(&self) -> u64 {
        self.total
    }

    pub fn new() -> (r: GCounter)
        ensures
            r@ == Set::<(Seq<char>, u64)>::empty(),
            r.total_spec() == 0,
    {
        proof {
            lemma_sum_empty();
            assert(record_set(Seq::<IncrementRecord>::empty()) =~= Set::<(Seq<char>, u64)>::empty());
        }
        GCounter { records: Vec::new(), total: 0 }
    }

    /// A copy of this counter.
    pub fn duplicate(&self) -> (r: GCounter)
        ensures
            r@ == self@,
            r.total_spec() == self.total_spec(),
    {
        proof {
            use_type_invariant(&*self);
        }
        let mut records: Vec<IncrementRecord> = Vec::new();
        let mut i: usize = 0;
        while i < self.records.len()
            invariant
                i <= self.records.len(),
                records@.len() == i,
                forall|k: int| 0 <= k < i ==> (#[trigger] records@[k])@ == self.records@[k]@,
            decreases self.records.len() - i,
        {
            records.push(self.records[i].duplicate());
            i = i + 1;
        }
        proof {
            let f = |x: IncrementRecord| x@;
            assert(records@.map_values(f) =~= self.records@.map_values(f));
        }
        GCounter { records, total: self.total }
    }

    pub fn total(&self) -> (r: u64)
        ensures
            r == self.total_spec(),
    {
        proof {
            use_type_invariant(&*self);
        }
        self.total
    }

    pub fn records(&self) -> (r: &Vec<IncrementRecord>)
        ensures
            record_set(r@) == self@,
            ids_unique(r@),
    {
        proof {
            use_type_invariant(&*self);
        }
        &self.records
    }

    /// Whether a record with this identifier has been applied.
    pub fn contains_id(&self, id: &String) -> (r: bool)
        ensures
            r == record_ids(self@).contains(id@),
    {
        proof {
            use_type_invariant(&*self);
        }
        let mut i: usize = 0;
        while i < self.records.len()
            invariant
                i <= self.records.len(),
                forall|j: int| 0 <= j < i ==> self.records@[j].id@ != id@,
            decreases self.records.len() - i,
        {
            if self.records[i].id == *id {
                proof {
                    lemma_record_set_contains(self.records@, self.records@[i as int]@);
                    assert(record_ids(self@).contains(id@));
                }
                return true;
            }
            i = i + 1;
        }
        proof {
            if record_ids(self@).contains(id@) {
                let x = choose|x: (Seq<char>, u64)| self@.contains(x) && x.0 == id@;
                lemma_record_set_contains(self.records@, x);
            }
        }
        false
    }

    /// Applies one record; a record whose identifier is already present adds nothing.
    pub fn apply(&mut self, record: IncrementRecord)
        requires
            record_ids(old(self)@).contains(record.id@) || old(self).total_spec() + record.delta
                <= u64::MAX,
        ensures
            record_ids(old(self)@).contains(record.id@) ==> final(self)@ == old(self)@
                && final(self).total_spec() == old(self).total_spec(),
            !record_ids(old(self)@).contains(record.id@) ==> final(self)@ == old(self)@.insert(
                record@,
            ) && final(self).total_spec() == old(self).total_spec() + record.delta,
    {
        proof {
            use_type_invariant(&*self);
        }
        if self.contains_id(&record.id) {
            return;
        }
        proof {
            lemma_record_set_contains(self.records@, record@);
            if self@.contains(record@) {
                assert(record_ids(self@).contains(record.id@));
            }
            lemma_sum_insert(self@, record@);
            lemma_record_set_push(self.records@, record);
            assert forall|j: int| 0 <= j < self.records@.len() implies self.records@[j].id@
                != record.id@ by {
                lemma_record_set_contains(self.records@, self.records@[j]@);
                assert(self@.contains(self.records@[j]@));
            }
        }
        let delta = record.delta;
        let mut taken = GCounter::new();
        std::mem::swap(self, &mut taken);
        let GCounter { mut records, total } = taken;
        records.push(record);
        let mut rebuilt = GCounter { records, total: total + delta };
        std::mem::swap(self, &mut rebuilt);
    }

    /// Merges a remote snapshot: every remote record with an identifier not
    /// yet present is added, and its delta counted once. Returns false, having
    /// added only part of the remote records, where the merged total would not
    /// fit in a `u64`.
    pub fn merge(&mut self, remote: &GCounter) -> (r: bool)
        ensures
            final(self).total_spec() == record_sum(final(self)@),
            r == (record_sum(counter_merge(old(self)@, remote@)) <= u64::MAX),
            r ==> final(self)@ == counter_merge(old(self)@, remote@),
            old(self)@.subset_of(final(self)@),
            final(self)@.subset_of(counter_merge(old(self)@, remote@)),
    {
        proof {
            use_type_invariant(&*self);
            use_type_invariant(remote);
        }
        let ghost start = self@;
        let ghost target = counter_merge(start, remote@);
        proof {
            lemma_record_set_contains(self.records@, (Seq::empty(), 0u64));
            lemma_record_set_contains(remote.records@, (Seq::empty(), 0u64));
            assert(target.subset_of(start + remote@));
            vstd::set_lib::lemma_set_union_finite_iff(start, remote@);
            assert(record_set(remote.records@.subrange(0, 0)) =~= Set::empty());
            assert(self@ =~= counter_merge(start, Set::empty()));
        }
        let mut i: usize = 0;
        while i < remote.records.len()
            invariant
                i <= remote.records.len(),
                self.wf(),
                remote.wf(),
                start.finite(),
                remote@.finite(),
                start == old(self)@,
                target == counter_merge(start, remote@),
                target.finite(),
                self@ == counter_merge(start, record_set(remote.records@.subrange(0, i as int))),
                start.subset_of(self@),
                self@.subset_of(target),
            decreases remote.records.len() - i,
        {
            let r = remote.records[i].duplicate();
            let ghost prefix = record_set(remote.records@.subrange(0, i as int));
            let ghost next = record_set(remote.records@.subrange(0, i + 1));
            proof {
                assert(remote.records@.subrange(0, i + 1) =~= remote.records@.subrange(
                    0,
                    i as int,
                ).push(remote.records@[i as int]));
                lemma_record_set_push(remote.records@.subrange(0, i as int), remote.records@[i as int]);
                lemma_record_set_contains(remote.records@, r@);
                lemma_record_set_contains(remote.records@.subrange(0, i as int), r@);
                // No earlier remote record carries this identifier.
                assert forall|x: (Seq<char>, u64)| prefix.contains(x) implies x.0 != r@.0 by {
                    lemma_record_set_contains(remote.records@.subrange(0, i as int), x);
                    let sub = remote.records@.subrange(0, i as int);
                    let k = choose|k: int| 0 <= k < i && (#[trigger] sub[k])@ == x;
                    assert(remote.records@[k]@ == x);
                }
                let in_start = record_ids(start).contains(r@.0);
                if in_start {
                    let x = choose|x: (Seq<char>, u64)| start.contains(x) && x.0 == r@.0;
                    assert(record_ids(self@).contains(r@.0)) by {
                        assert(self@.contains(x));
                    }
                    assert(counter_merge(start, next) =~= counter_merge(start, prefix));
                } else {
                    assert(!record_ids(self@).contains(r@.0)) by {
                        if record_ids(self@).contains(r@.0) {
                            let x = choose|x: (Seq<char>, u64)| self@.contains(x) && x.0 == r@.0;
                            if start.contains(x) {
                                assert(record_ids(start).contains(r@.0));
                            }
                        }
                    }
                    assert(counter_merge(start, next) =~= counter_merge(start, prefix).insert(r@));
                    assert(counter_merge(start, next).subset_of(target)) by {
                        assert forall|x: (Seq<char>, u64)|
                            counter_merge(start, next).contains(x) implies target.contains(x) by {
                            if next.contains(x) {
                                lemma_record_set_contains(remote.records@.subrange(0, i + 1), x);
                                let sub_next = remote.records@.subrange(0, i + 1);
                                let k = choose|k: int| 0 <= k < i + 1 && (#[trigger] sub_next[k])@ == x;
                                assert(remote.records@[k]@ == x);
                                lemma_record_set_contains(remote.records@, x);
                            }
                        }
                    }
                    lemma_record_set_contains(self.records@, r@);
                    lemma_sum_insert(self@, r@);
                    lemma_sum_subset(counter_merge(start, next), target);
                }
            }
            if !self.contains_id(&r.id) && r.delta > u64::MAX - self.total {
                proof {
                    if record_ids(start).contains(r@.0) {
                        let x = choose|x: (Seq<char>, u64)| start.contains(x) && x.0 == r@.0;
                        assert(self@.contains(x));
                        assert(record_ids(self@).contains(r@.0));
                    }
                    assert(record_sum(self@.insert(r@)) <= record_sum(target));
                    assert(start.subset_of(self@));
                }
                return false;
            }
            self.apply(r);
            proof {
                use_type_invariant(&*self);
            }
            i = i + 1;
        }
        proof {
            assert(remote.records@.subrange(0, remote.records@.len() as int) =~= remote.records@);
            lemma_sum_subset(target, target);
        }
        true
    }
}

/// What a transaction reports for one of its operations: a read gives the
/// value that the store held before the transaction, a write is echoed.
pub open spec fn txn_entry_result(before: Map<i32, i32>, e: TxnEntry) -> TxnEntry {
    match e.0 {
        TxnType::R => TxnEntry(
            TxnType::R,
            e.1,
            if before.contains_key(e.1) {
                Some(before[e.1])
            } else {
                None
            },
        ),
        TxnType::W => e,
    }
}

pub open spec fn txn_result(before: Map<i32, i32>, txn: Seq<TxnEntry>) -> Seq<TxnEntry> {
    txn.map_values(|e: TxnEntry| txn_entry_result(before, e))
}

/// The store after the writes of a transaction, in order; a write without a
/// value writes 0.
pub open spec fn txn_apply(store: Map<i32, i32>, txn: Seq<TxnEntry>) -> Map<i32, i32>
    decreases txn.len(),
{
    if txn.len() == 0 {
        store
    } else {
        let m = txn_apply(store, txn.drop_last());
        let e = txn.last();
        match e.0 {
            TxnType::W => m.insert(
                e.1,
                match e.2 {
                    Some(v) => v,
                    None => 0,
                },
            ),
            TxnType::R => m,
        }
    }
}

/// The convergent state of a node: a grow-only counter, a key-value snapshot
/// and the replicated logs.
#[derive(Debug)]
pub struct NodeState {
    pub counter: GCounter,
    pub key_value_store: HashMap<i32, i32>,
    pub log: LogState,
}

impl NodeState {
    pub fn new() -> (r: NodeState)
        ensures
            r.counter@ == Set::<(Seq<char>, u64)>::empty(),
            r.key_value_store@ == Map::<i32, i32>::empty(),
            r.log@.messages == Map::<(Seq<char>, usize), i64>::empty(),
            r.log@.committed == Map::<(Seq<char>, Seq<char>), usize>::empty(),
    {
        NodeState { counter: GCounter::new(), key_value_store: HashMap::new(), log: LogState::new() }
    }

    /// A copy of this state.
    pub fn duplicate(&self) -> (r: NodeState)
        ensures
            r.counter@ == self.counter@,
            r.counter.total_spec() == self.counter.total_spec(),
            r.key_value_store@ == self.key_value_store@,
            r.log@ == self.log@,
    {
        NodeState {
            counter: self.counter.duplicate(),
            key_value_store: self.key_value_store.clone(),
            log: self.log.duplicate(),
        }
    }

    /// Merges a snapshot received from a peer: counter records are unioned,
    /// the key-value store is replaced by the received one, and logs are
    /// merged. Returns false where the merged counter total would not fit in
    /// a `u64`; the counter then holds only part of the remote records.
    pub fn sync(&mut self, received_state: &NodeState) -> (r: bool)
        ensures
            final(self).key_value_store@ == received_state.key_value_store@,
            final(self).log@ == log_merge(old(self).log@, received_state.log@),
            r == (record_sum(counter_merge(old(self).counter@, received_state.counter@))
                <= u64::MAX),
            r ==> final(self).counter@ == counter_merge(old(self).counter@, received_state.counter@),
            old(self).counter@.subset_of(final(self).counter@),
            final(self).counter@.subset_of(
                counter_merge(old(self).counter@, received_state.counter@),
            ),
    {
        self.key_value_store = received_state.key_value_store.clone();
        self.log.merge(&received_state.log);
        self.counter.merge(&received_state.counter)
    }

    /// Runs a transaction: reads see the store as it was before the
    /// transaction, writes are applied in order.
    pub fn process_transaction(&mut self, txn: Vec<TxnEntry>) -> (r: Vec<TxnEntry>)
        ensures
            r@ == txn_result(old(self).key_value_store@, txn@),
            final(self).key_value_store@ == txn_apply(old(self).key_value_store@, txn@),
            final(self).counter == old(self).counter,
            final(self).log == old(self).log,
    {
        let before_snapshot = self.key_value_store.clone();
        let mut result: Vec<TxnEntry> = Vec::new();
        let mut i: usize = 0;
        while i < txn.len()
            invariant
                i <= txn.len(),
                before_snapshot@ == old(self).key_value_store@,
                result@ == txn_result(before_snapshot@, txn@.subrange(0, i as int)),
                self.key_value_store@ == txn_apply(before_snapshot@, txn@.subrange(0, i as int)),
                self.counter == old(self).counter,
                self.log == old(self).log,
            decreases txn.len() - i,
        {
            let txn_entry = txn[i];
            proof {
                assert(txn@.subrange(0, i + 1).drop_last() =~= txn@.subrange(0, i as int));
            }
            match txn_entry.0 {
                TxnType::R => {
                    match before_snapshot.get(&txn_entry.1) {
                        Some(value) => result.push(TxnEntry(TxnType::R, txn_entry.1, Some(*value))),
                        None => result.push(TxnEntry(TxnType::R, txn_entry.1, None)),
                    }
                },
                TxnType::W => {
                    result.push(txn_entry);
                    let value = match txn_entry.2 {
                        Some(v) => v,
                        None => 0,
                    };
                    self.key_value_store.insert(txn_entry.1, value);
                },
            }
            i = i + 1;
            proof {
                assert(result@ =~= txn_result(before_snapshot@, txn@.subrange(0, i as int)));
            }
        }
        proof {
            assert(txn@.subrange(0, txn@.len() as int) =~= txn@);
        }
        result
    }
}

} // verus!
