use vstd::prelude::*;

verus! {

/// The map that an association list stands for.
pub open spec fn pairs_map<K, V>(s: Seq<(K, V)>) -> Map<K, V>
    decreases s.len(),
{
    if s.len() == 0 {
        Map::empty()
    } else {
        pairs_map(s.drop_last()).insert(s.last().0, s.last().1)
    }
}

pub open spec fn keys_unique<K, V>(s: Seq<(K, V)>) -> bool {
    forall|i: int, j: int| 0 <= i < s.len() && 0 <= j < s.len() && i != j ==> s[i].0 != s[j].0
}

pub proof fn lemma_pairs_map<K, V>(s: Seq<(K, V)>)
    requires
        keys_unique(s),
    ensures
        forall|k: K|
            #![trigger pairs_map(s).contains_key(k)]
            pairs_map(s).contains_key(k) <==> exists|i: int| 0 <= i < s.len() && s[i].0 == k,
        forall|i: int| 0 <= i < s.len() ==> pairs_map(s)[#[trigger] s[i].0] == s[i].1,
        pairs_map(s).dom().finite(),
    decreases s.len(),
{
    if s.len() > 0 {
        let t = s.drop_last();
        assert(keys_unique(t));
        lemma_pairs_map(t);
        assert forall|k: K| pairs_map(s).contains_key(k) implies exists|i: int|
            0 <= i < s.len() && s[i].0 == k by {
            if k != s.last().0 {
                let i = choose|i: int| 0 <= i < t.len() && t[i].0 == k;
                assert(s[i].0 == k);
            } else {
                assert(s[s.len() - 1].0 == k);
            }
        }
        assert forall|k: K| (exists|i: int| 0 <= i < s.len() && s[i].0 == k) implies pairs_map(
            s,
        ).contains_key(k) by {
            let i = choose|i: int| 0 <= i < s.len() && s[i].0 == k;
            if i < s.len() - 1 {
                assert(t[i].0 == k);
            }
        }
        assert forall|i: int| 0 <= i < s.len() implies pairs_map(s)[#[trigger] s[i].0] == s[i].1 by {
            if i < s.len() - 1 {
                assert(t[i] == s[i]);
                assert(s[i].0 != s.last().0);
            }
        }
    }
}

/// A value written to a log at an offset.
#[derive(Debug)]
pub struct LogEntry {
    pub topic: String,
    pub offset: usize,
    pub value: i64,
}

/// The offset up to which a replica has committed a log.
#[derive(Debug)]
pub struct Commit {
    pub topic: String,
    pub replica: String,
    pub offset: usize,
}

pub open spec fn entry_pairs(s: Seq<LogEntry>) -> Seq<((Seq<char>, usize), i64)> {
    s.map_values(|e: LogEntry| ((e.topic@, e.offset), e.value))
}

pub open spec fn commit_pairs(s: Seq<Commit>) -> Seq<((Seq<char>, Seq<char>), usize)> {
    s.map_values(|c: Commit| ((c.topic@, c.replica@), c.offset))
}

/// Abstract view of the replicated logs: the value at each (log, offset), and
/// the committed offset of each (log, replica).
pub struct LogView {
    pub messages: Map<(Seq<char>, usize), i64>,
    pub committed: Map<(Seq<char>, Seq<char>), usize>,
}

/// Committed offsets merged pointwise: the larger of the two where both hold one.
pub open spec fn committed_merge(
    a: Map<(Seq<char>, Seq<char>), usize>,
    b: Map<(Seq<char>, Seq<char>), usize>,
) -> Map<(Seq<char>, Seq<char>), usize> {
    Map::new(
        |k: (Seq<char>, Seq<char>)| a.contains_key(k) || b.contains_key(k),
        |k: (Seq<char>, Seq<char>)|
            if a.contains_key(k) && b.contains_key(k) {
                if a[k] >= b[k] {
                    a[k]
                } else {
                    b[k]
                }
            } else if a.contains_key(k) {
                a[k]
            } else {
                b[k]
            },
    )
}

/// Log merge: every offset already written keeps its value, offsets only the
/// remote side holds are adopted, and committed offsets take the maximum.
pub open spec fn log_merge(local: LogView, remote: LogView) -> LogView {
    LogView {
        messages: remote.messages.union_prefer_right(local.messages),
        committed: committed_merge(local.committed, remote.committed),
    }
}

/// The messages of log `topic` from offset `from` on, by offset.
pub open spec fn messages_from(
    messages: Map<(Seq<char>, usize), i64>,
    topic: Seq<char>,
    from: usize,
) -> Map<usize, i64> {
    Map::new(
        |o: usize| o >= from && messages.contains_key((topic, o)),
        |o: usize| messages[(topic, o)],
    )
}

/// For each requested log, in order, the committed offset of `replica`,
/// leaving out logs where it has committed nothing.
pub open spec fn listed_offsets(
    committed: Map<(Seq<char>, Seq<char>), usize>,
    replica: Seq<char>,
    keys: Seq<Seq<char>>,
) -> Seq<(Seq<char>, usize)>
    decreases keys.len(),
{
    if keys.len() == 0 {
        Seq::empty()
    } else {
        let rest = listed_offsets(committed, replica, keys.drop_last());
        let k = keys.last();
        if committed.contains_key((k, replica)) {
            rest.push((k, committed[(k, replica)]))
        } else {
            rest
        }
    }
}

/// Committed offsets after `replica` commits each (log, offset) in turn.
pub open spec fn commit_all(
    committed: Map<(Seq<char>, Seq<char>), usize>,
    replica: Seq<char>,
    offsets: Seq<(String, usize)>,
) -> Map<(Seq<char>, Seq<char>), usize>
    decreases offsets.len(),
{
    if offsets.len() == 0 {
        committed
    } else {
        let c = commit_all(committed, replica, offsets.drop_last());
        committed_merge(c, map![(offsets.last().0@, replica) => offsets.last().1])
    }
}

/// A log merge keeps every value already written, at its offset.
pub proof fn lemma_log_merge_keeps_writes(local: LogView, remote: LogView, k: (Seq<char>, usize))
    requires
        local.messages.contains_key(k),
    ensures
        log_merge(local, remote).messages.contains_key(k),
        log_merge(local, remote).messages[k] == local.messages[k],
{
}

/// After a log merge each replica's committed offset is at least what either
/// side held.
pub proof fn lemma_log_merge_committed_monotone(
    local: LogView,
    remote: LogView,
    k: (Seq<char>, Seq<char>),
)
    ensures
        local.committed.contains_key(k) ==> log_merge(local, remote).committed.contains_key(k)
            && log_merge(local, remote).committed[k] >= local.committed[k],
        remote.committed.contains_key(k) ==> log_merge(local, remote).committed.contains_key(k)
            && log_merge(local, remote).committed[k] >= remote.committed[k],
{
}

/// Two log states agree: an offset written in both holds the same value.
pub open spec fn writes_agree(a: LogView, b: LogView) -> bool {
    forall|k: (Seq<char>, usize)|
        #![trigger a.messages.contains_key(k), b.messages.contains_key(k)]
        a.messages.contains_key(k) && b.messages.contains_key(k) ==> a.messages[k] == b.messages[k]
}

/// Log merges of states that agree on their writes can be applied in any
/// order and grouped in any way.
pub proof fn lemma_log_merge_order_free(a: LogView, b: LogView, c: LogView)
    requires
        writes_agree(a, b),
        writes_agree(b, c),
        writes_agree(a, c),
    ensures
        log_merge(a, b) == log_merge(b, a),
        log_merge(log_merge(a, b), c) == log_merge(a, log_merge(b, c)),
{
    assert(log_merge(a, b).messages =~= log_merge(b, a).messages);
    assert(log_merge(a, b).committed =~= log_merge(b, a).committed);
    assert(log_merge(log_merge(a, b), c).messages =~= log_merge(a, log_merge(b, c)).messages);
    assert(log_merge(log_merge(a, b), c).committed =~= log_merge(a, log_merge(b, c)).committed);
}

/// Merging a log state with itself changes nothing.
pub proof fn lemma_log_merge_idempotent(s: LogView)
    ensures
        log_merge(s, s) == s,
{
    assert(log_merge(s, s).messages =~= s.messages);
    assert(log_merge(s, s).committed =~= s.committed);
}

/// Offsets strictly ascending along the sequence.
pub open spec fn offsets_ascending(s: Seq<(usize, i64)>) -> bool {
    forall|a: int, b: int| 0 <= a < b < s.len() ==> (#[trigger] s[a]).0 < (#[trigger] s[b]).0
}

proof fn lemma_ascending_unique(s: Seq<(usize, i64)>)
    requires
        offsets_ascending(s),
    ensures
        keys_unique(s),
{
    assert forall|a: int, b: int| 0 <= a < s.len() && 0 <= b < s.len() && a != b implies s[a].0
        != s[b].0 by {
        if a < b {
            assert(s[a].0 < s[b].0);
        } else {
            assert(s[b].0 < s[a].0);
        }
    }
}

/// Association lists with unique keys and the same entries stand for the same map.
proof fn lemma_same_pairs<K, V>(s1: Seq<(K, V)>, s2: Seq<(K, V)>)
    requires
        keys_unique(s1),
        keys_unique(s2),
        forall|x: (K, V)| s1.contains(x) <==> s2.contains(x),
    ensures
        pairs_map(s1) == pairs_map(s2),
{
    lemma_pairs_map(s1);
    lemma_pairs_map(s2);
    assert forall|k: K| pairs_map(s1).contains_key(k) <==> pairs_map(s2).contains_key(k) by {
        if pairs_map(s1).contains_key(k) {
            let i = choose|i: int| 0 <= i < s1.len() && s1[i].0 == k;
            assert(s1.contains(s1[i]));
            let j = choose|j: int| 0 <= j < s2.len() && s2[j] == s1[i];
            assert(s2[j].0 == k);
        }
        if pairs_map(s2).contains_key(k) {
            let i = choose|i: int| 0 <= i < s2.len() && s2[i].0 == k;
            assert(s2.contains(s2[i]));
            let j = choose|j: int| 0 <= j < s1.len() && s1[j] == s2[i];
            assert(s1[j].0 == k);
        }
    }
    assert forall|k: K| #[trigger] pairs_map(s1).contains_key(k) implies pairs_map(s1)[k] == pairs_map(
        s2,
    )[k] by {
        let i = choose|i: int| 0 <= i < s1.len() && s1[i].0 == k;
        assert(s1.contains(s1[i]));
        let j = choose|j: int| 0 <= j < s2.len() && s2[j] == s1[i];
        assert(pairs_map(s1)[s1[i].0] == s1[i].1);
        assert(pairs_map(s2)[s2[j].0] == s2[j].1);
    }
    assert(pairs_map(s1) =~= pairs_map(s2));
}

/// The same (offset, value) pairs, by ascending offset.
fn sort_by_offset(v: Vec<(usize, i64)>) -> (r: Vec<(usize, i64)>)
    requires
        keys_unique(v@),
    ensures
        offsets_ascending(r@),
        forall|x: (usize, i64)| r@.contains(x) <==> v@.contains(x),
{
    let mut r: Vec<(usize, i64)> = Vec::new();
    let mut i: usize = 0;
    while i < v.len()
        invariant
            i <= v.len(),
            keys_unique(v@),
            offsets_ascending(r@),
            forall|x: (usize, i64)| r@.contains(x) <==> v@.subrange(0, i as int).contains(x),
        decreases v.len() - i,
    {
        let x = v[i];
        let mut p: usize = 0;
        while p < r.len() && r[p].0 < x.0
            invariant
                p <= r.len(),
                forall|q: int| 0 <= q < p ==> r@[q].0 < x.0,
            decreases r.len() - p,
        {
            p = p + 1;
        }
        let ghost before = r@;
        proof {
            // No pair already placed has this offset.
            assert forall|q: int| 0 <= q < before.len() implies before[q].0 != x.0 by {
                assert(before.contains(before[q]));
                assert(v@.subrange(0, i as int).contains(before[q]));
                let j = choose|j: int| 0 <= j < i && v@.subrange(0, i as int)[j] == before[q];
                assert(v@[j] == before[q]);
            }
            assert forall|q: int| p <= q < before.len() implies before[q].0 > x.0 by {
                if p < before.len() {
                    assert(before[p as int].0 >= x.0);
                    assert(before[p as int].0 != x.0);
                    if q > p {
                        assert(before[p as int].0 < before[q].0);
                    }
                }
            }
        }
        r.insert(p, x);
        proof {
            let s2 = r@;
            assert(s2 =~= before.insert(p as int, x));
            assert forall|a: int, b: int| 0 <= a < b < s2.len() implies (#[trigger] s2[a]).0 < (
            #[trigger] s2[b]).0 by {
                if b < p {
                    assert(s2[a] == before[a] && s2[b] == before[b]);
                } else if b == p {
                    assert(s2[a] == before[a]);
                } else if a < p {
                    assert(s2[a] == before[a] && s2[b] == before[b - 1]);
                } else if a == p {
                    assert(s2[b] == before[b - 1]);
                } else {
                    assert(s2[a] == before[a - 1] && s2[b] == before[b - 1]);
                }
            }
            let pre = v@.subrange(0, i as int);
            let post = v@.subrange(0, i + 1);
            assert(post =~= pre.push(x));
            assert forall|y: (usize, i64)| s2.contains(y) <==> post.contains(y) by {
                if s2.contains(y) {
                    let j = choose|j: int| 0 <= j < s2.len() && s2[j] == y;
                    if j < p {
                        assert(before[j] == y);
                        assert(before.contains(y));
                        let w = choose|w: int| 0 <= w < pre.len() && pre[w] == y;
                        assert(post[w] == y);
                    } else if j == p {
                        assert(post[i as int] == y);
                    } else {
                        assert(before[j - 1] == y);
                        assert(before.contains(y));
                        let w = choose|w: int| 0 <= w < pre.len() && pre[w] == y;
                        assert(post[w] == y);
                    }
                }
                if post.contains(y) {
                    let w = choose|w: int| 0 <= w < post.len() && post[w] == y;
                    if w < i {
                        assert(pre[w] == y);
                        assert(pre.contains(y));
                        assert(before.contains(y));
                        let j = choose|j: int| 0 <= j < before.len() && before[j] == y;
                        if j < p {
                            assert(s2[j] == y);
                        } else {
                            assert(s2[j + 1] == y);
                        }
                    } else {
                        assert(s2[p as int] == y);
                    }
                }
            }
        }
        i = i + 1;
    }
    proof {
        assert(v@.subrange(0, v@.len() as int) =~= v@);
    }
    r
}

/// The replicated logs of a node.
#[derive(Debug)]
pub struct LogState {
    entries: Vec<LogEntry>,
    commits: Vec<Commit>,
}

impl View for LogState {
    type V = LogView;

    closed spec fn view(&self) -> LogView {
        LogView {
            messages: pairs_map(entry_pairs(self.entries@)),
            committed: pairs_map(commit_pairs(self.commits@)),
        }
    }
}

impl LogState {
    #[verifier::type_invariant]
    pub closed spec fn wf(&self) -> bool {
        &&& keys_unique(entry_pairs(self.entries@))
        &&& keys_unique(commit_pairs(self.commits@))
    }

    pub fn new() -> (r: LogState)
        ensures
            r@.messages == Map::<(Seq<char>, usize), i64>::empty(),
            r@.committed == Map::<(Seq<char>, Seq<char>), usize>::empty(),
    {
        LogState { entries: Vec::new(), commits: Vec::new() }
    }

    /// A copy of these logs.
    pub fn duplicate(&self) -> (r: LogState)
        ensures
            r@ == self@,
    {
        proof {
            use_type_invariant(&*self);
        }
        let mut entries: Vec<LogEntry> = Vec::new();
        let mut i: usize = 0;
        while i < self.entries.len()
            invariant
                i <= self.entries.len(),
                entries@.len() == i,
                forall|k: int|
                    0 <= k < i ==> (#[trigger] entries@[k]).topic@ == self.entries@[k].topic@
                        && entries@[k].offset == self.entries@[k].offset && entries@[k].value
                        == self.entries@[k].value,
            decreases self.entries.len() - i,
        {
            let e = &self.entries[i];
            entries.push(LogEntry { topic: e.topic.clone(), offset: e.offset, value: e.value });
            i = i + 1;
        }
        let mut commits: Vec<Commit> = Vec::new();
        let mut i: usize = 0;
        while i < self.commits.len()
            invariant
                i <= self.commits.len(),
                commits@.len() == i,
                forall|k: int|
                    0 <= k < i ==> (#[trigger] commits@[k]).topic@ == self.commits@[k].topic@
                        && commits@[k].replica@ == self.commits@[k].replica@ && commits@[k].offset
                        == self.commits@[k].offset,
            decreases self.commits.len() - i,
        {
            let c = &self.commits[i];
            commits.push(
                Commit { topic: c.topic.clone(), replica: c.replica.clone(), offset: c.offset },
            );
            i = i + 1;
        }
        proof {
            assert(entry_pairs(entries@) =~= entry_pairs(self.entries@));
            assert(commit_pairs(commits@) =~= commit_pairs(self.commits@));
        }
        LogState { entries, commits }
    }

    pub fn entries(&self) -> (r: &Vec<LogEntry>)
        ensures
            pairs_map(entry_pairs(r@)) == self@.messages,
            keys_unique(entry_pairs(r@)),
    {
        proof {
            use_type_invariant(&*self);
        }
        &self.entries
    }

    pub fn commits(&self) -> (r: &Vec<Commit>)
        ensures
            pairs_map(commit_pairs(r@)) == self@.committed,
            keys_unique(commit_pairs(r@)),
    {
        proof {
            use_type_invariant(&*self);
        }
        &self.commits
    }

    fn find_entry(&self, topic: &String, offset: usize) -> (r: Option<usize>)
        ensures
            match r {
                Some(i) => i < self.entries@.len() && self.entries@[i as int].topic@ == topic@
                    && self.entries@[i as int].offset == offset,
                None => !self@.messages.contains_key((topic@, offset)),
            },
    {
        proof {
            use_type_invariant(&*self);
        }
        let mut i: usize = 0;
        while i < self.entries.len()
            invariant
                i <= self.entries.len(),
                forall|j: int|
                    0 <= j < i ==> !(self.entries@[j].topic@ == topic@ && self.entries@[j].offset
                        == offset),
            decreases self.entries.len() - i,
        {
            if self.entries[i].offset == offset && self.entries[i].topic == *topic {
                return Some(i);
            }
            i = i + 1;
        }
        proof {
            lemma_pairs_map(entry_pairs(self.entries@));
            if self@.messages.contains_key((topic@, offset)) {
                let j = choose|j: int|
                    0 <= j < entry_pairs(self.entries@).len() && entry_pairs(self.entries@)[j].0 == (
                    topic@, offset);
                assert(self.entries@[j].topic@ == topic@);
            }
        }
        None
    }

    fn find_commit(&self, topic: &String, replica: &String) -> (r: Option<usize>)
        ensures
            match r {
                Some(i) => i < self.commits@.len() && self.commits@[i as int].topic@ == topic@
                    && self.commits@[i as int].replica@ == replica@,
                None => !self@.committed.contains_key((topic@, replica@)),
            },
    {
        proof {
            use_type_invariant(&*self);
        }
        let mut i: usize = 0;
        while i < self.commits.len()
            invariant
                i <= self.commits.len(),
                forall|j: int|
                    0 <= j < i ==> !(self.commits@[j].topic@ == topic@ && self.commits@[j].replica@
                        == replica@),
            decreases self.commits.len() - i,
        {
            if self.commits[i].topic == *topic && self.commits[i].replica == *replica {
                return Some(i);
            }
            i = i + 1;
        }
        proof {
            lemma_pairs_map(commit_pairs(self.commits@));
            if self@.committed.contains_key((topic@, replica@)) {
                let j = choose|j: int|
                    0 <= j < commit_pairs(self.commits@).len() && commit_pairs(self.commits@)[j].0
                        == (topic@, replica@);
                assert(self.commits@[j].topic@ == topic@);
            }
        }
        None
    }

    /// Writes `value` at `offset` of log `topic`, unless that offset is
    /// already written; returns whether it wrote.
    pub fn add_message(&mut self, topic: &String, offset: usize, value: i64) -> (r: bool)
        ensures
            r == !old(self)@.messages.contains_key((topic@, offset)),
            final(self)@.messages == map![(topic@, offset) => value].union_prefer_right(
                old(self)@.messages,
            ),
            final(self)@.committed == old(self)@.committed,
    {
        proof {
            use_type_invariant(&*self);
        }
        proof {
            lemma_pairs_map(entry_pairs(self.entries@));
        }
        match self.find_entry(topic, offset) {
            Some(i) => {
                proof {
                    assert(entry_pairs(self.entries@)[i as int].0 == (topic@, offset));
                    assert(map![(topic@, offset) => value].union_prefer_right(self@.messages)
                        =~= self@.messages);
                }
                false
            },
            None => {
                let ghost before = self.entries@;
                let e = LogEntry { topic: topic.clone(), offset, value };
                let mut taken = LogState::new();
                std::mem::swap(self, &mut taken);
                let LogState { mut entries, commits } = taken;
                entries.push(e);
                proof {
                    let ep = entry_pairs(entries@);
                    assert(ep =~= entry_pairs(before).push(((topic@, offset), value)));
                    assert forall|a: int, b: int|
                        0 <= a < ep.len() && 0 <= b < ep.len() && a != b implies ep[a].0
                        != ep[b].0 by {
                        if a == before.len() {
                            assert(ep[b] == entry_pairs(before)[b]);
                            assert(pairs_map(entry_pairs(before)).contains_key(
                                entry_pairs(before)[b].0,
                            ));
                        } else if b == before.len() {
                            assert(ep[a] == entry_pairs(before)[a]);
                            assert(pairs_map(entry_pairs(before)).contains_key(
                                entry_pairs(before)[a].0,
                            ));
                        } else {
                            assert(ep[a] == entry_pairs(before)[a]);
                            assert(ep[b] == entry_pairs(before)[b]);
                        }
                    }
                }
                let mut rebuilt = LogState { entries, commits };
                std::mem::swap(self, &mut rebuilt);
                proof {
                    assert(entry_pairs(self.entries@) =~= entry_pairs(before).push(
                        ((topic@, offset), value),
                    ));
                    assert(entry_pairs(self.entries@).drop_last() =~= entry_pairs(before));
                    assert forall|i: int, j: int|
                        0 <= i < entry_pairs(self.entries@).len() && 0 <= j < entry_pairs(
                            self.entries@,
                        ).len() && i != j implies entry_pairs(self.entries@)[i].0 != entry_pairs(
                        self.entries@,
                    )[j].0 by {
                        if i == before.len() {
                            assert(pairs_map(entry_pairs(before)).contains_key(
                                entry_pairs(before)[j].0,
                            ));
                        } else if j == before.len() {
                            assert(pairs_map(entry_pairs(before)).contains_key(
                                entry_pairs(before)[i].0,
                            ));
                        }
                    }
                    assert(self@.messages =~= map![(topic@, offset) => value].union_prefer_right(
                        pairs_map(entry_pairs(before)),
                    ));
                }
                true
            },
        }
    }

    /// Raises the committed offset of `replica` in log `topic` to `offset`;
    /// a committed offset never goes down.
    pub fn commit(&mut self, topic: &String, replica: &String, offset: usize)
        ensures
            final(self)@.messages == old(self)@.messages,
            final(self)@.committed == committed_merge(
                old(self)@.committed,
                map![(topic@, replica@) => offset],
            ),
    {
        proof {
            use_type_invariant(&*self);
        }
        let ghost before = self.commits@;
        let ghost key = (topic@, replica@);
        proof {
            lemma_pairs_map(commit_pairs(before));
        }
        match self.find_commit(topic, replica) {
            Some(i) => {
                proof {
                    assert(commit_pairs(before)[i as int].0 == key);
                }
                if self.commits[i].offset < offset {
                    let c = Commit { topic: topic.clone(), replica: replica.clone(), offset };
                    let mut taken = LogState::new();
                    std::mem::swap(self, &mut taken);
                    let LogState { entries, mut commits } = taken;
                    commits.set(i, c);
                    proof {
                        let cp = commit_pairs(commits@);
                        assert(cp =~= commit_pairs(before).update(i as int, (key, offset)));
                        assert forall|a: int, b: int|
                            0 <= a < cp.len() && 0 <= b < cp.len() && a != b implies cp[a].0
                            != cp[b].0 by {
                            assert(cp[a].0 == commit_pairs(before)[a].0);
                            assert(cp[b].0 == commit_pairs(before)[b].0);
                        }
                    }
                    let mut rebuilt = LogState { entries, commits };
                    std::mem::swap(self, &mut rebuilt);
                    proof {
                        let cp = commit_pairs(self.commits@);
                        assert(cp =~= commit_pairs(before).update(i as int, (key, offset)));
                        assert(keys_unique(cp));
                        lemma_pairs_map(cp);
                        assert forall|k: (Seq<char>, Seq<char>)|
                            pairs_map(cp).contains_key(k) <==> pairs_map(
                                commit_pairs(before),
                            ).contains_key(k) by {
                            if pairs_map(cp).contains_key(k) {
                                let j = choose|j: int| 0 <= j < cp.len() && cp[j].0 == k;
                                assert(commit_pairs(before)[j].0 == k);
                            }
                            if pairs_map(commit_pairs(before)).contains_key(k) {
                                let j = choose|j: int|
                                    0 <= j < commit_pairs(before).len() && commit_pairs(before)[j].0
                                        == k;
                                assert(cp[j].0 == k);
                            }
                        }
                        assert forall|k: (Seq<char>, Seq<char>)| #[trigger]
                            pairs_map(cp).contains_key(k) implies pairs_map(cp)[k] == committed_merge(
                            pairs_map(commit_pairs(before)),
                            map![key => offset],
                        )[k] by {
                            let j = choose|j: int| 0 <= j < cp.len() && cp[j].0 == k;
                            assert(commit_pairs(before)[j].0 == k);
                        }
                        assert(pairs_map(cp) =~= committed_merge(
                            pairs_map(commit_pairs(before)),
                            map![key => offset],
                        ));
                    }
                } else {
                    proof {
                        assert(self@.committed =~= committed_merge(
                            self@.committed,
                            map![key => offset],
                        ));
                    }
                }
            },
            None => {
                let c = Commit { topic: topic.clone(), replica: replica.clone(), offset };
                let mut taken = LogState::new();
                std::mem::swap(self, &mut taken);
                let LogState { entries, mut commits } = taken;
                commits.push(c);
                proof {
                    let cp = commit_pairs(commits@);
                    assert(cp =~= commit_pairs(before).push((key, offset)));
                    assert forall|a: int, b: int|
                        0 <= a < cp.len() && 0 <= b < cp.len() && a != b implies cp[a].0
                        != cp[b].0 by {
                        if a == before.len() {
                            assert(cp[b] == commit_pairs(before)[b]);
                            assert(pairs_map(commit_pairs(before)).contains_key(
                                commit_pairs(before)[b].0,
                            ));
                        } else if b == before.len() {
                            assert(cp[a] == commit_pairs(before)[a]);
                            assert(pairs_map(commit_pairs(before)).contains_key(
                                commit_pairs(before)[a].0,
                            ));
                        } else {
                            assert(cp[a] == commit_pairs(before)[a]);
                            assert(cp[b] == commit_pairs(before)[b]);
                        }
                    }
                }
                let mut rebuilt = LogState { entries, commits };
                std::mem::swap(self, &mut rebuilt);
                proof {
                    let cp = commit_pairs(self.commits@);
                    assert(cp =~= commit_pairs(before).push((key, offset)));
                    assert(cp.drop_last() =~= commit_pairs(before));
                    assert forall|i: int, j: int|
                        0 <= i < cp.len() && 0 <= j < cp.len() && i != j implies cp[i].0
                        != cp[j].0 by {
                        if i == before.len() {
                            assert(pairs_map(commit_pairs(before)).contains_key(
                                commit_pairs(before)[j].0,
                            ));
                        } else if j == before.len() {
                            assert(pairs_map(commit_pairs(before)).contains_key(
                                commit_pairs(before)[i].0,
                            ));
                        }
                    }
                    assert(self@.committed =~= committed_merge(
                        pairs_map(commit_pairs(before)),
                        map![key => offset],
                    ));
                }
            },
        }
    }

    /// Merges a remote snapshot: offsets already written keep their values,
    /// the others are adopted, and committed offsets take the maximum.
    pub fn merge(&mut self, remote: &LogState)
        ensures
            final(self)@ == log_merge(old(self)@, remote@),
    {
        proof {
            use_type_invariant(&*self);
            use_type_invariant(remote);
        }
        let ghost start = self@;
        let mut i: usize = 0;
        while i < remote.entries.len()
            invariant
                i <= remote.entries.len(),
                self.wf(),
                remote.wf(),
                self@.committed == start.committed,
                self@.messages == pairs_map(entry_pairs(remote.entries@.subrange(0, i as int)))
                    .union_prefer_right(start.messages),
            decreases remote.entries.len() - i,
        {
            let ghost pre = entry_pairs(remote.entries@.subrange(0, i as int));
            let ghost cur = self@.messages;
            let e = &remote.entries[i];
            proof {
                let ep = entry_pairs(remote.entries@);
                assert(entry_pairs(remote.entries@.subrange(0, i + 1)) =~= pre.push(ep[i as int]));
                assert(entry_pairs(remote.entries@.subrange(0, i + 1)).drop_last() =~= pre);
                assert forall|a: int, b: int|
                    0 <= a < pre.len() && 0 <= b < pre.len() && a != b implies pre[a].0
                    != pre[b].0 by {
                    assert(pre[a] == ep[a]);
                    assert(pre[b] == ep[b]);
                }
                lemma_pairs_map(pre);
                if pairs_map(pre).contains_key(ep[i as int].0) {
                    let j = choose|j: int| 0 <= j < pre.len() && pre[j].0 == ep[i as int].0;
                    assert(pre[j] == ep[j]);
                    assert(ep[j].0 == ep[i as int].0);
                }
            }
            self.add_message(&e.topic, e.offset, e.value);
            proof {
                use_type_invariant(&*self);
            }
            proof {
                assert(self@.messages =~= pairs_map(
                    entry_pairs(remote.entries@.subrange(0, i + 1)),
                ).union_prefer_right(start.messages));
            }
            i = i + 1;
        }
        proof {
            assert(remote.entries@.subrange(0, remote.entries@.len() as int) =~= remote.entries@);
        }
        let mut i: usize = 0;
        while i < remote.commits.len()
            invariant
                i <= remote.commits.len(),
                self.wf(),
                remote.wf(),
                self@.messages == remote@.messages.union_prefer_right(start.messages),
                self@.committed == committed_merge(
                    start.committed,
                    pairs_map(commit_pairs(remote.commits@.subrange(0, i as int))),
                ),
            decreases remote.commits.len() - i,
        {
            let ghost pre = commit_pairs(remote.commits@.subrange(0, i as int));
            let c = &remote.commits[i];
            proof {
                let cp = commit_pairs(remote.commits@);
                assert(commit_pairs(remote.commits@.subrange(0, i + 1)) =~= pre.push(cp[i as int]));
                assert(commit_pairs(remote.commits@.subrange(0, i + 1)).drop_last() =~= pre);
                assert forall|a: int, b: int|
                    0 <= a < pre.len() && 0 <= b < pre.len() && a != b implies pre[a].0
                    != pre[b].0 by {
                    assert(pre[a] == cp[a]);
                    assert(pre[b] == cp[b]);
                }
                lemma_pairs_map(pre);
                if pairs_map(pre).contains_key(cp[i as int].0) {
                    let j = choose|j: int| 0 <= j < pre.len() && pre[j].0 == cp[i as int].0;
                    assert(pre[j] == cp[j]);
                    assert(cp[j].0 == cp[i as int].0);
                }
            }
            self.commit(&c.topic, &c.replica, c.offset);
            proof {
                use_type_invariant(&*self);
            }
            proof {
                assert(self@.committed =~= committed_merge(
                    start.committed,
                    pairs_map(commit_pairs(remote.commits@.subrange(0, i + 1))),
                ));
            }
            i = i + 1;
        }
        proof {
            assert(remote.commits@.subrange(0, remote.commits@.len() as int) =~= remote.commits@);
        }
    }

    /// The messages of log `topic` from offset `from` on, each offset once.
    pub fn messages_from(&self, topic: &String, from: usize) -> (r: Vec<(usize, i64)>)
        ensures
            keys_unique(r@),
            offsets_ascending(r@),
            pairs_map(r@) == messages_from(self@.messages, topic@, from),
    {
        proof {
            use_type_invariant(&*self);
        }
        let ghost ep = entry_pairs(self.entries@);
        proof {
            lemma_pairs_map(ep);
        }
        let mut r: Vec<(usize, i64)> = Vec::new();
        let mut i: usize = 0;
        while i < self.entries.len()
            invariant
                i <= self.entries.len(),
                self.wf(),
                ep == entry_pairs(self.entries@),
                forall|k: (Seq<char>, usize)|
                    #![trigger pairs_map(ep).contains_key(k)]
                    pairs_map(ep).contains_key(k) <==> exists|j: int|
                        0 <= j < ep.len() && ep[j].0 == k,
                forall|j: int| 0 <= j < ep.len() ==> pairs_map(ep)[#[trigger] ep[j].0] == ep[j].1,
                keys_unique(r@),
                forall|m: int|
                    0 <= m < r@.len() ==> exists|j: int|
                        0 <= j < i && ep[j].0 == (topic@, (#[trigger] r@[m]).0) && ep[j].1
                            == r@[m].1 && r@[m].0 >= from,
                forall|j: int|
                    0 <= j < i && ep[j].0.0 == topic@ && ep[j].0.1 >= from ==> exists|m: int|
                        0 <= m < r@.len() && (#[trigger] r@[m]).0 == ep[j].0.1,
            decreases self.entries.len() - i,
        {
            let e = &self.entries[i];
            let ghost before = r@;
            proof {
                assert(ep[i as int] == ((e.topic@, e.offset), e.value));
            }
            if e.offset >= from && e.topic == *topic {
                proof {
                    assert forall|m: int| 0 <= m < r@.len() implies r@[m].0 != e.offset by {
                        let j = choose|j: int|
                            0 <= j < i && ep[j].0 == (topic@, (#[trigger] r@[m]).0) && ep[j].1
                                == r@[m].1 && r@[m].0 >= from;
                        assert(ep[i as int].0 == (topic@, e.offset));
                    }
                }
                r.push((e.offset, e.value));
                proof {
                    assert(r@[r@.len() - 1].0 == ep[i as int].0.1);
                    assert forall|j: int|
                        0 <= j < i + 1 && ep[j].0.0 == topic@ && ep[j].0.1 >= from implies exists|
                        m: int,
                    | 0 <= m < r@.len() && (#[trigger] r@[m]).0 == ep[j].0.1 by {
                        if j < i {
                            let m = choose|m: int|
                                0 <= m < before.len() && (#[trigger] before[m]).0 == ep[j].0.1;
                            assert(r@[m] == before[m]);
                        } else {
                            assert(r@[r@.len() - 1].0 == ep[j].0.1);
                        }
                    }
                    assert forall|m: int| 0 <= m < r@.len() implies exists|j: int|
                        0 <= j < i + 1 && ep[j].0 == (topic@, (#[trigger] r@[m]).0) && ep[j].1
                            == r@[m].1 && r@[m].0 >= from by {
                        if m < before.len() {
                            assert(r@[m] == before[m]);
                        } else {
                            assert(ep[i as int].0 == (topic@, r@[m].0));
                        }
                    }
                }
            }
            i = i + 1;
        }
        proof {
            lemma_pairs_map(r@);
            let want = messages_from(self@.messages, topic@, from);
            assert forall|o: usize| pairs_map(r@).contains_key(o) <==> want.contains_key(o) by {
                if pairs_map(r@).contains_key(o) {
                    let m = choose|m: int| 0 <= m < r@.len() && r@[m].0 == o;
                    let j = choose|j: int|
                        0 <= j < i && ep[j].0 == (topic@, (#[trigger] r@[m]).0) && ep[j].1
                            == r@[m].1 && r@[m].0 >= from;
                    assert(pairs_map(ep).contains_key(ep[j].0));
                }
                if want.contains_key(o) {
                    assert(pairs_map(ep).contains_key((topic@, o)));
                    let j = choose|j: int| 0 <= j < ep.len() && ep[j].0 == (topic@, o);
                    let m = choose|m: int| 0 <= m < r@.len() && (#[trigger] r@[m]).0 == ep[j].0.1;
                }
            }
            assert forall|o: usize| #[trigger]
                pairs_map(r@).contains_key(o) implies pairs_map(r@)[o] == want[o] by {
                let m = choose|m: int| 0 <= m < r@.len() && r@[m].0 == o;
                let j = choose|j: int|
                    0 <= j < i && ep[j].0 == (topic@, (#[trigger] r@[m]).0) && ep[j].1 == r@[m].1
                        && r@[m].0 >= from;
            }
            assert(pairs_map(r@) =~= want);
        }
        let sorted = sort_by_offset(r);
        proof {
            lemma_ascending_unique(sorted@);
            lemma_same_pairs(sorted@, r@);
        }
        sorted
    }

    /// For each requested (log, offset), the messages of that log from the
    /// offset on.
    pub fn poll(&self, offsets: &Vec<(String, usize)>) -> (r: Vec<(String, Vec<(usize, i64)>)>)
        ensures
            r@.len() == offsets@.len(),
            forall|i: int|
                #![trigger r@[i]]
                0 <= i < r@.len() ==> r@[i].0@ == offsets@[i].0@ && keys_unique(r@[i].1@)
                    && offsets_ascending(r@[i].1@) && pairs_map(r@[i].1@) == messages_from(
                    self@.messages,
                    offsets@[i].0@,
                    offsets@[i].1,
                ),
    {
        proof {
            use_type_invariant(&*self);
        }
        let mut r: Vec<(String, Vec<(usize, i64)>)> = Vec::new();
        let mut i: usize = 0;
        while i < offsets.len()
            invariant
                i <= offsets.len(),
                self.wf(),
                r@.len() == i,
                forall|j: int|
                    #![trigger r@[j]]
                    0 <= j < i ==> r@[j].0@ == offsets@[j].0@ && keys_unique(r@[j].1@)
                        && offsets_ascending(r@[j].1@) && pairs_map(
                        r@[j].1@,
                    ) == messages_from(self@.messages, offsets@[j].0@, offsets@[j].1),
            decreases offsets.len() - i,
        {
            let msgs = self.messages_from(&offsets[i].0, offsets[i].1);
            r.push((offsets[i].0.clone(), msgs));
            i = i + 1;
        }
        r
    }

    /// Commits each (log, offset) for `replica`, in order.
    pub fn commit_offsets(&mut self, replica: &String, offsets: &Vec<(String, usize)>)
        ensures
            final(self)@.messages == old(self)@.messages,
            final(self)@.committed == commit_all(old(self)@.committed, replica@, offsets@),
    {
        proof {
            use_type_invariant(&*self);
        }
        let ghost start = self@;
        let mut i: usize = 0;
        while i < offsets.len()
            invariant
                i <= offsets.len(),
                self.wf(),
                self@.messages == start.messages,
                self@.committed == commit_all(
                    start.committed,
                    replica@,
                    offsets@.subrange(0, i as int),
                ),
            decreases offsets.len() - i,
        {
            proof {
                assert(offsets@.subrange(0, i + 1).drop_last() =~= offsets@.subrange(0, i as int));
            }
            self.commit(&offsets[i].0, replica, offsets[i].1);
            proof {
                use_type_invariant(&*self);
            }
            i = i + 1;
        }
        proof {
            assert(offsets@.subrange(0, offsets@.len() as int) =~= offsets@);
        }
    }

    /// The committed offsets of `replica` for the requested logs.
    pub fn get_offsets(&self, replica: &String, keys: &Vec<String>) -> (r: Vec<(String, usize)>)
        ensures
            r@.map_values(|p: (String, usize)| (p.0@, p.1)) == listed_offsets(
                self@.committed,
                replica@,
                keys@.map_values(|k: String| k@),
            ),
    {
        proof {
            use_type_invariant(&*self);
        }
        let mut r: Vec<(String, usize)> = Vec::new();
        let mut i: usize = 0;
        proof {
            lemma_pairs_map(commit_pairs(self.commits@));
        }
        while i < keys.len()
            invariant
                i <= keys.len(),
                self.wf(),
                r@.map_values(|p: (String, usize)| (p.0@, p.1)) == listed_offsets(
                    self@.committed,
                    replica@,
                    keys@.map_values(|k: String| k@).subrange(0, i as int),
                ),
            decreases keys.len() - i,
        {
            let ghost ks = keys@.map_values(|k: String| k@);
            let ghost before = r@;
            proof {
                lemma_pairs_map(commit_pairs(self.commits@));
                assert(ks.subrange(0, i + 1).drop_last() =~= ks.subrange(0, i as int));
                assert(ks.subrange(0, i + 1).last() == keys@[i as int]@);
            }
            match self.find_commit(&keys[i], replica) {
                Some(j) => {
                    proof {
                        assert(commit_pairs(self.commits@)[j as int].0 == (keys@[i as int]@, replica@));
                        assert(self@.committed.contains_key((keys@[i as int]@, replica@)));
                    }
                    r.push((keys[i].clone(), self.commits[j].offset));
                    proof {
                        assert(r@.map_values(|p: (String, usize)| (p.0@, p.1)) =~= before.map_values(
                            |p: (String, usize)| (p.0@, p.1),
                        ).push((keys@[i as int]@, self.commits@[j as int].offset)));
                    }
                },
                None => {},
            }
            i = i + 1;
        }
        proof {
            assert(keys@.map_values(|k: String| k@).subrange(0, keys@.len() as int) =~= keys@.map_values(
                |k: String| k@,
            ));
        }
        r
    }
}

} // verus!
