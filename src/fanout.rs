use vstd::prelude::*;

verus! {

/// A topology as plain values: each entry is a node and its neighbours.
pub open spec fn topo_view(t: Seq<(String, Vec<String>)>) -> Seq<(Seq<char>, Seq<Seq<char>>)> {
    t.map_values(|e: (String, Vec<String>)| (e.0@, e.1@.map_values(|s: String| s@)))
}

/// The names that a vector of strings holds.
pub open spec fn name_set(v: Seq<String>) -> Set<Seq<char>> {
    Set::new(|x: Seq<char>| exists|i: int| 0 <= i < v.len() && (#[trigger] v[i])@ == x)
}

/// The topology lists `v` among the neighbours of `u`.
pub open spec fn edge(tv: Seq<(Seq<char>, Seq<Seq<char>>)>, u: Seq<char>, v: Seq<char>) -> bool {
    exists|i: int| 0 <= i < tv.len() && (#[trigger] tv[i]).0 == u && tv[i].1.contains(v)
}

/// A walk of one or more edges that passes through `me` at no inner step.
pub open spec fn is_walk(
    tv: Seq<(Seq<char>, Seq<Seq<char>>)>,
    me: Seq<char>,
    path: Seq<Seq<char>>,
) -> bool {
    &&& path.len() >= 2
    &&& forall|k: int| 0 <= k < path.len() - 1 ==> edge(tv, #[trigger] path[k], path[k + 1])
    &&& forall|k: int| 0 < k < path.len() - 1 ==> #[trigger] path[k] != me
}

/// `n` can be reached from `from` along the topology without passing through `me`.
pub open spec fn reachable(
    tv: Seq<(Seq<char>, Seq<Seq<char>>)>,
    me: Seq<char>,
    from: Seq<char>,
    n: Seq<char>,
) -> bool {
    exists|path: Seq<Seq<char>>|
        #[trigger] is_walk(tv, me, path) && path[0] == from && path.last() == n
}

/// The peers to relay to: every peer other than `me` that the sender's own
/// message cannot already have reached through the topology.
pub open spec fn fanout_targets(
    peers: Set<Seq<char>>,
    tv: Seq<(Seq<char>, Seq<Seq<char>>)>,
    me: Seq<char>,
    from: Seq<char>,
) -> Set<Seq<char>> {
    Set::new(|p: Seq<char>| peers.contains(p) && p != me && !reachable(tv, me, from, p))
}

/// With no known topology no peer is reachable from the sender, so the
/// relay goes to every peer other than the node itself.
pub proof fn lemma_empty_topology_floods(peers: Set<Seq<char>>, me: Seq<char>, from: Seq<char>)
    ensures
        fanout_targets(peers, Seq::empty(), me, from) == peers.remove(me),
{
    assert forall|p: Seq<char>| !reachable(Seq::empty(), me, from, p) by {
        if reachable(Seq::empty(), me, from, p) {
            let path = choose|path: Seq<Seq<char>>|
                #[trigger] is_walk(Seq::empty(), me, path) && path[0] == from && path.last() == p;
            assert(edge(Seq::empty(), path[0], path[1]));
        }
    }
    assert(fanout_targets(peers, Seq::empty(), me, from) =~= peers.remove(me));
}

/// The relay never silently drops a peer: every peer other than the node
/// itself is either reachable from the sender, and so informed along the
/// topology, or a relay target; and no target is reachable from the sender.
pub proof fn lemma_fanout_covers_peers(
    peers: Set<Seq<char>>,
    tv: Seq<(Seq<char>, Seq<Seq<char>>)>,
    me: Seq<char>,
    from: Seq<char>,
    p: Seq<char>,
)
    requires
        peers.contains(p),
        p != me,
    ensures
        reachable(tv, me, from, p) || fanout_targets(peers, tv, me, from).contains(p),
        fanout_targets(peers, tv, me, from).contains(p) ==> !reachable(tv, me, from, p),
{
}

/// A node whose neighbours the traversal has to visit.
pub open spec fn expandable(visited: Set<Seq<char>>, me: Seq<char>, from: Seq<char>, u: Seq<char>) -> bool {
    u == from || (visited.contains(u) && u != me)
}

/// The visited set is closed: every neighbour of an expandable node is in it.
pub open spec fn closed(
    tv: Seq<(Seq<char>, Seq<Seq<char>>)>,
    visited: Set<Seq<char>>,
    me: Seq<char>,
    from: Seq<char>,
) -> bool {
    forall|i: int, v: Seq<char>|
        0 <= i < tv.len() && expandable(visited, me, from, tv[i].0) && #[trigger] tv[i].1.contains(v)
            ==> visited.contains(v)
}

/// A closed visited set holds every node reachable from the sender.
proof fn lemma_closed_holds_reachable(
    tv: Seq<(Seq<char>, Seq<Seq<char>>)>,
    visited: Set<Seq<char>>,
    me: Seq<char>,
    from: Seq<char>,
    n: Seq<char>,
)
    requires
        closed(tv, visited, me, from),
        reachable(tv, me, from, n),
    ensures
        visited.contains(n),
{
    let path = choose|path: Seq<Seq<char>>|
        #[trigger] is_walk(tv, me, path) && path[0] == from && path.last() == n;
    lemma_closed_walk_prefix(tv, visited, me, from, path, path.len() - 1);
}

/// Every node of a walk from the sender, after the first, is in a closed visited set.
proof fn lemma_closed_walk_prefix(
    tv: Seq<(Seq<char>, Seq<Seq<char>>)>,
    visited: Set<Seq<char>>,
    me: Seq<char>,
    from: Seq<char>,
    path: Seq<Seq<char>>,
    k: int,
)
    requires
        closed(tv, visited, me, from),
        is_walk(tv, me, path),
        path[0] == from,
        1 <= k < path.len(),
    ensures
        visited.contains(path[k]),
    decreases k,
{
    assert(edge(tv, path[k - 1], path[k]));
    let i = choose|i: int| 0 <= i < tv.len() && (#[trigger] tv[i]).0 == path[k - 1] && tv[i].1.contains(
        path[k],
    );
    if k > 1 {
        lemma_closed_walk_prefix(tv, visited, me, from, path, k - 1);
        assert(path[k - 1] != me);
    }
    assert(expandable(visited, me, from, tv[i].0));
}

/// Whether `v` holds the name `s`.
pub fn contains_name(v: &Vec<String>, s: &String) -> (r: bool)
    ensures
        r == name_set(v@).contains(s@),
{
    let mut i: usize = 0;
    while i < v.len()
        invariant
            i <= v.len(),
            forall|j: int| 0 <= j < i ==> v@[j]@ != s@,
        decreases v.len() - i,
    {
        if v[i] == *s {
            assert(v@[i as int]@ == s@);
            return true;
        }
        i = i + 1;
    }
    false
}

pub open spec fn count_true(s: Seq<bool>) -> nat
    decreases s.len(),
{
    if s.len() == 0 {
        0
    } else {
        count_true(s.drop_last()) + if s.last() {
            1nat
        } else {
            0nat
        }
    }
}

proof fn lemma_count_true_set(s: Seq<bool>, i: int)
    requires
        0 <= i < s.len(),
        !s[i],
    ensures
        count_true(s.update(i, true)) == count_true(s) + 1,
        count_true(s) <= s.len(),
    decreases s.len(),
{
    let t = s.update(i, true);
    if i < s.len() - 1 {
        assert(t.drop_last() =~= s.drop_last().update(i, true));
        lemma_count_true_set(s.drop_last(), i);
    } else {
        assert(t.drop_last() =~= s.drop_last());
        lemma_count_true_le(s.drop_last());
    }
}

proof fn lemma_count_true_none(s: Seq<bool>)
    requires
        forall|i: int| 0 <= i < s.len() ==> !s[i],
    ensures
        count_true(s) == 0,
    decreases s.len(),
{
    if s.len() > 0 {
        lemma_count_true_none(s.drop_last());
    }
}

proof fn lemma_count_true_le(s: Seq<bool>)
    ensures
        count_true(s) <= s.len(),
    decreases s.len(),
{
    if s.len() > 0 {
        lemma_count_true_le(s.drop_last());
    }
}

/// The peers that must be sent a fresh relay after a change triggered by
/// `from`: the peers other than `me` that no walk along the topology leads
/// to from `from` without passing through `me`. Each is listed once.
pub fn unreached_peers(
    peers: &Vec<String>,
    topology: &Vec<(String, Vec<String>)>,
    me: &String,
    from: &String,
) -> (r: Vec<String>)
    ensures
        name_set(r@) == fanout_targets(name_set(peers@), topo_view(topology@), me@, from@),
        forall|i: int, j: int| 0 <= i < r@.len() && 0 <= j < r@.len() && i != j ==> r@[i]@ != r@[j]@,
{
    let ghost tv = topo_view(topology@);
    let mut visited: Vec<String> = Vec::new();
    visited.push(me.clone());
    let mut done: Vec<bool> = Vec::new();
    let mut n: usize = 0;
    while n < topology.len()
        invariant
            n <= topology.len(),
            done@.len() == n,
            forall|i: int| 0 <= i < n ==> !done@[i],
        decreases topology.len() - n,
    {
        done.push(false);
        n = n + 1;
    }
    let mut ndone: usize = 0;
    proof {
        lemma_count_true_none(done@);
    }
    loop
        invariant
            done@.len() == topology@.len(),
            tv == topo_view(topology@),
            ndone == count_true(done@),
            ndone <= topology@.len(),
            visited@.len() >= 1,
            visited@[0]@ == me@,
            forall|x: Seq<char>|
                #[trigger] name_set(visited@).contains(x) ==> x == me@ || reachable(tv, me@, from@, x),
            forall|k: int, v: Seq<char>|
                0 <= k < tv.len() && done@[k] && #[trigger] tv[k].1.contains(v) ==> name_set(
                    visited@,
                ).contains(v),
            forall|k: int|
                0 <= k < tv.len() && #[trigger] done@[k] ==> expandable(
                    name_set(visited@),
                    me@,
                    from@,
                    tv[k].0,
                ),
        ensures
            closed(tv, name_set(visited@), me@, from@),
            forall|x: Seq<char>|
                #[trigger] name_set(visited@).contains(x) ==> x == me@ || reachable(tv, me@, from@, x),
            visited@.len() >= 1,
            visited@[0]@ == me@,
        decreases topology@.len() - ndone,
    {
        let mut expanded = false;
        let ghost pass_start = name_set(visited@);
        let ghost ndone_start = ndone;
        let mut i: usize = 0;
        while i < topology.len()
            invariant
                i <= topology.len(),
                done@.len() == topology@.len(),
                tv == topo_view(topology@),
                ndone == count_true(done@),
                ndone <= topology@.len(),
                visited@.len() >= 1,
                visited@[0]@ == me@,
                forall|x: Seq<char>|
                    #[trigger] name_set(visited@).contains(x) ==> x == me@ || reachable(
                        tv,
                        me@,
                        from@,
                        x,
                    ),
                forall|k: int, v: Seq<char>|
                    0 <= k < tv.len() && done@[k] && #[trigger] tv[k].1.contains(v) ==> name_set(
                        visited@,
                    ).contains(v),
                forall|k: int|
                    0 <= k < tv.len() && #[trigger] done@[k] ==> expandable(
                        name_set(visited@),
                        me@,
                        from@,
                        tv[k].0,
                    ),
                !expanded ==> name_set(visited@) == pass_start && ndone == ndone_start,
                !expanded ==> forall|k: int|
                    0 <= k < i && !done@[k] ==> !expandable(
                        name_set(visited@),
                        me@,
                        from@,
                        (#[trigger] tv[k]).0,
                    ),
                expanded ==> ndone > ndone_start,
            decreases topology.len() - i,
        {
            let key = &topology[i].0;
            proof {
                assert(tv[i as int].0 == key@);
            }
            if !done[i] && (*key == *from || (*key != *me && contains_name(&visited, key))) {
                let nbrs = &topology[i].1;
                let ghost nv = nbrs@.map_values(|s: String| s@);
                proof {
                    assert(tv[i as int].1 == nv);
                }
                let mut j: usize = 0;
                while j < nbrs.len()
                    invariant
                        j <= nbrs.len(),
                        i < topology.len(),
                        done@.len() == topology@.len(),
                        tv == topo_view(topology@),
                        tv[i as int].0 == key@,
                        tv[i as int].1 == nv,
                        nv == nbrs@.map_values(|s: String| s@),
                        expandable(name_set(visited@), me@, from@, key@),
                        visited@.len() >= 1,
                        visited@[0]@ == me@,
                        forall|x: Seq<char>|
                            #[trigger] name_set(visited@).contains(x) ==> x == me@ || reachable(
                                tv,
                                me@,
                                from@,
                                x,
                            ),
                        forall|k: int, v: Seq<char>|
                            0 <= k < tv.len() && done@[k] && #[trigger] tv[k].1.contains(v)
                                ==> name_set(visited@).contains(v),
                        forall|k: int|
                            0 <= k < tv.len() && #[trigger] done@[k] ==> expandable(
                                name_set(visited@),
                                me@,
                                from@,
                                tv[k].0,
                            ),
                        forall|jj: int| 0 <= jj < j ==> name_set(visited@).contains(#[trigger] nv[jj]),
                    decreases nbrs.len() - j,
                {
                    if !contains_name(&visited, &nbrs[j]) {
                        let ghost old_visited = visited@;
                        proof {
                            assert(nv[j as int] == nbrs@[j as int]@);
                            assert(tv[i as int].1.contains(nbrs@[j as int]@));
                            assert(edge(tv, key@, nbrs@[j as int]@));
                            lemma_reach_step(tv, me@, from@, key@, nbrs@[j as int]@);
                        }
                        visited.push(nbrs[j].clone());
                        proof {
                            assert forall|x: Seq<char>|
                                name_set(old_visited).contains(x) implies name_set(visited@).contains(
                                x,
                            ) by {
                                let w = choose|w: int|
                                    0 <= w < old_visited.len() && (#[trigger] old_visited[w])@ == x;
                                assert(visited@[w] == old_visited[w]);
                            }
                            assert(visited@[visited@.len() - 1]@ == nbrs@[j as int]@);
                            assert forall|x: Seq<char>|
                                #[trigger] name_set(visited@).contains(x) implies x == me@
                                || reachable(tv, me@, from@, x) by {
                                let w = choose|w: int|
                                    0 <= w < visited@.len() && (#[trigger] visited@[w])@ == x;
                                if w < old_visited.len() {
                                    assert(old_visited[w] == visited@[w]);
                                    assert(name_set(old_visited).contains(x));
                                }
                            }
                        }
                    }
                    proof {
                        assert(nv[j as int] == nbrs@[j as int]@);
                    }
                    j = j + 1;
                }
                proof {
                    lemma_count_true_set(done@, i as int);
                    lemma_count_true_le(done@.update(i as int, true));
                }
                done.set(i, true);
                ndone = ndone + 1;
                expanded = true;
                proof {
                    assert forall|v: Seq<char>| tv[i as int].1.contains(v) implies name_set(
                        visited@,
                    ).contains(v) by {
                        let jj = choose|jj: int| 0 <= jj < nv.len() && nv[jj] == v;
                    }
                }
            }
            i = i + 1;
        }
        if !expanded {
            proof {
                assert forall|k: int, v: Seq<char>|
                    0 <= k < tv.len() && expandable(name_set(visited@), me@, from@, tv[k].0)
                        && #[trigger] tv[k].1.contains(v) implies name_set(visited@).contains(v) by {
                    assert(done@[k]);
                }
            }
            break;
        }
    }
    let mut r: Vec<String> = Vec::new();
    let mut k: usize = 0;
    while k < peers.len()
        invariant
            k <= peers.len(),
            name_set(r@) == Set::new(
                |x: Seq<char>|
                    (exists|kk: int| 0 <= kk < k && (#[trigger] peers@[kk])@ == x) && x != me@
                        && !name_set(visited@).contains(x),
            ),
            forall|a: int, b: int| 0 <= a < r@.len() && 0 <= b < r@.len() && a != b ==> r@[a]@ != r@[b]@,
        decreases peers.len() - k,
    {
        let p = &peers[k];
        let ghost before = r@;
        if *p != *me && !contains_name(&visited, p) && !contains_name(&r, p) {
            r.push(p.clone());
            proof {
                assert forall|a: int, b: int|
                    0 <= a < r@.len() && 0 <= b < r@.len() && a != b implies r@[a]@ != r@[b]@ by {
                    if a == before.len() {
                        assert(r@[b] == before[b]);
                        assert(name_set(before).contains(before[b]@));
                    } else if b == before.len() {
                        assert(r@[a] == before[a]);
                        assert(name_set(before).contains(before[a]@));
                    } else {
                        assert(r@[a] == before[a]);
                        assert(r@[b] == before[b]);
                    }
                }
            }
        }
        proof {
            let want = Set::new(
                |x: Seq<char>|
                    (exists|kk: int| 0 <= kk < k + 1 && (#[trigger] peers@[kk])@ == x) && x != me@
                        && !name_set(visited@).contains(x),
            );
            assert forall|x: Seq<char>| name_set(r@).contains(x) <==> want.contains(x) by {
                if name_set(r@).contains(x) {
                    let w = choose|w: int| 0 <= w < r@.len() && (#[trigger] r@[w])@ == x;
                    if w < before.len() {
                        assert(r@[w] == before[w]);
                        assert(name_set(before).contains(x));
                        let kk = choose|kk: int| 0 <= kk < k && (#[trigger] peers@[kk])@ == x;
                    } else {
                        assert(peers@[k as int]@ == x);
                    }
                }
                if want.contains(x) {
                    let kk = choose|kk: int| 0 <= kk < k + 1 && (#[trigger] peers@[kk])@ == x;
                    if kk < k {
                        assert(name_set(before).contains(x));
                        let w = choose|w: int| 0 <= w < before.len() && (#[trigger] before[w])@ == x;
                        assert(r@[w] == before[w]);
                    } else if name_set(before).contains(x) {
                        let w = choose|w: int| 0 <= w < before.len() && (#[trigger] before[w])@ == x;
                        assert(r@[w] == before[w]);
                    } else {
                        assert(r@[r@.len() - 1]@ == x);
                    }
                }
            }
            assert(name_set(r@) =~= want);
        }
        k = k + 1;
    }
    proof {
        let want = fanout_targets(name_set(peers@), tv, me@, from@);
        assert forall|x: Seq<char>| name_set(r@).contains(x) <==> want.contains(x) by {
            if name_set(peers@).contains(x) {
                let kk = choose|kk: int| 0 <= kk < peers@.len() && (#[trigger] peers@[kk])@ == x;
            }
            if x != me@ && reachable(tv, me@, from@, x) {
                lemma_closed_holds_reachable(tv, name_set(visited@), me@, from@, x);
            }
        }
        assert(name_set(r@) =~= want);
    }
    r
}

/// One more edge from a node the sender's message reaches (or from the
/// sender itself) reaches its neighbour.
proof fn lemma_reach_step(
    tv: Seq<(Seq<char>, Seq<Seq<char>>)>,
    me: Seq<char>,
    from: Seq<char>,
    u: Seq<char>,
    v: Seq<char>,
)
    requires
        edge(tv, u, v),
        u == from || (u != me && reachable(tv, me, from, u)),
    ensures
        reachable(tv, me, from, v),
{
    if u == from {
        let path = seq![from, v];
        assert(edge(tv, path[0], path[1]));
        assert(is_walk(tv, me, path));
    } else {
        let p = choose|p: Seq<Seq<char>>| #[trigger] is_walk(tv, me, p) && p[0] == from && p.last() == u;
        let path = p.push(v);
        assert forall|k: int| 0 <= k < path.len() - 1 implies edge(tv, #[trigger] path[k], path[k + 1]) by {
            if k < p.len() - 1 {
                assert(path[k] == p[k] && path[k + 1] == p[k + 1]);
                assert(edge(tv, p[k], p[k + 1]));
            }
        }
        assert forall|k: int| 0 < k < path.len() - 1 implies #[trigger] path[k] != me by {
            if k < p.len() - 1 {
                assert(path[k] == p[k]);
            }
        }
        assert(is_walk(tv, me, path));
    }
}

} // verus!
