//! Validation of the target graph and filtering to a requested subgraph.
//!
//! The dependency relation must be closed (every referenced name exists) and
//! acyclic; both are checked once at load time and any violation is fatal.

use vstd::prelude::*;
use crate::domain::Target;
use crate::domain::TargetSpec;

verus! {

/// True when some target in `g` is named `name`.
pub open spec fn spec_has_target(g: Seq<TargetSpec>, name: Seq<char>) -> bool {
    exists|i: int| 0 <= i < g.len() && g[i].name == name
}

/// No two targets share a name: the graph is a mapping from name to target.
pub open spec fn spec_unique_names(g: Seq<TargetSpec>) -> bool {
    forall|i: int, j: int| 0 <= i < j < g.len() ==> g[i].name != g[j].name
}

/// The target named `a` declares a dependency on `b`.
pub open spec fn spec_dep_edge(g: Seq<TargetSpec>, a: Seq<char>, b: Seq<char>) -> bool {
    exists|i: int|
        0 <= i < g.len() && g[i].name == a && g[i].depends_on.contains(b)
}

/// Every declared dependency names a target of the graph.
pub open spec fn spec_deps_exist(g: Seq<TargetSpec>) -> bool {
    forall|i: int, k: int|
        0 <= i < g.len() && 0 <= k < g[i].depends_on.len()
            ==> spec_has_target(g, #[trigger] g[i].depends_on[k])
}

/// A nonempty sequence of names where each depends on the next and the last
/// depends on the first.
pub open spec fn spec_is_cycle(g: Seq<TargetSpec>, c: Seq<Seq<char>>) -> bool {
    &&& c.len() >= 1
    &&& forall|k: int| 0 <= k < c.len() - 1 ==> spec_dep_edge(g, #[trigger] c[k], c[k + 1])
    &&& spec_dep_edge(g, c[c.len() - 1], c[0])
}

/// The dependency relation has no cycle of any length.
pub open spec fn spec_acyclic(g: Seq<TargetSpec>) -> bool {
    forall|c: Seq<Seq<char>>| !spec_is_cycle(g, c)
}

/// Index of the (unique) target named `name`, by linear scan.
pub fn find_target(targets: &Vec<Target>, name: &String) -> (r: Option<usize>)
    ensures
        match r {
            Some(i) => i < targets.len() && targets.deep_view()[i as int].name == name@,
            None => !spec_has_target(targets.deep_view(), name@),
        },
{
    let mut i: usize = 0;
    while i < targets.len()
        invariant
            i <= targets.len(),
            forall|j: int| 0 <= j < i ==> targets.deep_view()[j].name != name@,
        decreases targets.len() - i,
    {
        if targets[i].name == *name {
            proof {
                assert(targets.deep_view()[i as int].name == name@);
            }
            return Some(i);
        }
        i += 1;
    }
    None
}

/// A duplicate-free sequence of indices drawn from `0..n` that misses some
/// index `x` is shorter than `n`.
proof fn lemma_distinct_bounded(s: Seq<int>, n: int, x: int)
    requires
        s.no_duplicates(),
        forall|k: int| 0 <= k < s.len() ==> 0 <= #[trigger] s[k] < n,
        0 <= x < n,
        !s.contains(x),
    ensures
        s.len() < n,
{
    broadcast use vstd::set::group_set_axioms;

    s.unique_seq_to_set();
    let with_x = s.to_set().insert(x);
    let range = vstd::set_lib::set_int_range(0, n);
    vstd::set_lib::lemma_int_range(0, n);
    assert forall|e: int| with_x.contains(e) implies range.contains(e) by {
        if e != x {
            assert(s.to_set().contains(e));
            assert(s.contains(e));
        }
    }
    vstd::set_lib::lemma_len_subset(with_x, range);
    assert(!s.to_set().contains(x));
    assert(with_x.len() == s.to_set().len() + 1);
}

/// Some done target is named `d`.
pub open spec fn spec_name_done(g: Seq<TargetSpec>, done: Seq<bool>, d: Seq<char>) -> bool {
    exists|j: int| 0 <= j < g.len() && g[j].name == d && done[j]
}

/// Some entry of `order` before position `k` names the target `d`.
pub open spec fn spec_named_before(g: Seq<TargetSpec>, order: Seq<int>, k: int, d: Seq<char>) -> bool {
    exists|k2: int| 0 <= k2 < k && k2 < order.len() && g[order[k2]].name == d
}

/// `order` lists graph indices so that every dependency of an entry appears
/// strictly earlier.
pub open spec fn spec_topo_ok(g: Seq<TargetSpec>, order: Seq<int>) -> bool {
    &&& forall|k: int| 0 <= k < order.len() ==> 0 <= #[trigger] order[k] < g.len()
    &&& forall|k: int, m: int|
        0 <= k < order.len() && 0 <= m < g[order[k]].depends_on.len() ==> spec_named_before(
            g,
            order,
            k,
            #[trigger] g[order[k]].depends_on[m],
        )
}

/// Position in `order` of the target named `name`.
pub open spec fn spec_ord_pos(g: Seq<TargetSpec>, order: Seq<int>, name: Seq<char>) -> int {
    choose|k: int| 0 <= k < order.len() && g[order[k]].name == name
}

/// In a complete topological order, following a dependency edge strictly
/// lowers the position.
proof fn lemma_edge_pos_decreases(g: Seq<TargetSpec>, order: Seq<int>, a: Seq<char>, b: Seq<char>)
    requires
        spec_unique_names(g),
        spec_topo_ok(g, order),
        order.no_duplicates(),
        forall|i: int| 0 <= i < g.len() ==> order.contains(i),
        spec_dep_edge(g, a, b),
    ensures
        0 <= spec_ord_pos(g, order, b),
        spec_ord_pos(g, order, b) < spec_ord_pos(g, order, a),
        spec_ord_pos(g, order, a) < order.len(),
        g[order[spec_ord_pos(g, order, a)]].name == a,
        g[order[spec_ord_pos(g, order, b)]].name == b,
{
    let i = choose|i: int| 0 <= i < g.len() && g[i].name == a && g[i].depends_on.contains(b);
    assert(order.contains(i));
    let k = choose|k: int| 0 <= k < order.len() && order[k] == i;
    assert(g[order[k]].name == a);
    let ka = spec_ord_pos(g, order, a);
    assert(0 <= ka < order.len() && g[order[ka]].name == a);
    assert(order[ka] == i);
    let m = choose|m: int| 0 <= m < g[i].depends_on.len() && g[i].depends_on[m] == b;
    assert(g[order[ka]].depends_on[m] == b);
    assert(spec_named_before(g, order, ka, g[order[ka]].depends_on[m]));
    let k2 = choose|k2: int| 0 <= k2 < ka && k2 < order.len() && g[order[k2]].name == b;
    let kb = spec_ord_pos(g, order, b);
    assert(0 <= kb < order.len() && g[order[kb]].name == b);
    assert(order[kb] == order[k2]);
    assert(kb == k2);
}

/// Around a cycle the position would keep falling: step `m` sits at least
/// `m` below the start.
proof fn lemma_cycle_descent(g: Seq<TargetSpec>, order: Seq<int>, c: Seq<Seq<char>>, m: int)
    requires
        spec_unique_names(g),
        spec_topo_ok(g, order),
        order.no_duplicates(),
        forall|i: int| 0 <= i < g.len() ==> order.contains(i),
        spec_is_cycle(g, c),
        0 <= m < c.len(),
    ensures
        spec_ord_pos(g, order, c[m]) <= spec_ord_pos(g, order, c[0]) - m,
    decreases m,
{
    if m > 0 {
        lemma_cycle_descent(g, order, c, m - 1);
        assert(spec_dep_edge(g, c[m - 1], c[m]));
        lemma_edge_pos_decreases(g, order, c[m - 1], c[m]);
    }
}

/// A complete topological order certifies the absence of cycles.
proof fn lemma_topo_acyclic(g: Seq<TargetSpec>, order: Seq<int>)
    requires
        spec_unique_names(g),
        spec_topo_ok(g, order),
        order.no_duplicates(),
        forall|i: int| 0 <= i < g.len() ==> order.contains(i),
    ensures
        spec_acyclic(g),
{
    assert forall|c: Seq<Seq<char>>| !spec_is_cycle(g, c) by {
        if spec_is_cycle(g, c) {
            let last = c.len() - 1;
            lemma_cycle_descent(g, order, c, last);
            lemma_edge_pos_decreases(g, order, c[last], c[0]);
        }
    }
}

/// Are all dependencies of target `i` done already?
fn deps_done(targets: &Vec<Target>, done: &Vec<bool>, i: usize) -> (r: bool)
    requires
        done.len() == targets.len(),
        i < targets.len(),
        spec_unique_names(targets.deep_view()),
    ensures
        r == (forall|k: int|
            0 <= k < targets.deep_view()[i as int].depends_on.len() ==> spec_name_done(
                targets.deep_view(),
                done@,
                #[trigger] targets.deep_view()[i as int].depends_on[k],
            )),
{
    let ghost g = targets.deep_view();
    let t = &targets[i];
    let mut k: usize = 0;
    while k < t.depends_on.len()
        invariant
            done.len() == targets.len(),
            i < targets.len(),
            spec_unique_names(g),
            g == targets.deep_view(),
            t@ == g[i as int],
            k <= t.depends_on.len(),
            forall|k2: int|
                0 <= k2 < k ==> spec_name_done(g, done@, #[trigger] g[i as int].depends_on[k2]),
        decreases t.depends_on.len() - k,
    {
        proof {
            assert(t.depends_on.deep_view()[k as int] == g[i as int].depends_on[k as int]);
        }
        match find_target(targets, &t.depends_on[k]) {
            Some(j) => {
                if !done[j] {
                    proof {
                        assert forall|j2: int|
                            0 <= j2 < g.len() && g[j2].name == g[i as int].depends_on[k as int]
                                implies !done@[j2] by {
                            assert(g[j2].name == g[j as int].name);
                        }
                    }
                    return false;
                }
            },
            None => {
                return false;
            },
        }
        k += 1;
    }
    true
}

/// Scan for a target that is not done and whose dependencies all are.
fn find_addable(targets: &Vec<Target>, done: &Vec<bool>) -> (r: Option<usize>)
    requires
        done.len() == targets.len(),
        spec_unique_names(targets.deep_view()),
    ensures
        match r {
            Some(i) => {
                &&& i < targets.len()
                &&& !done@[i as int]
                &&& forall|k: int|
                    0 <= k < targets.deep_view()[i as int].depends_on.len() ==> spec_name_done(
                        targets.deep_view(),
                        done@,
                        #[trigger] targets.deep_view()[i as int].depends_on[k],
                    )
            },
            None => forall|i: int|
                0 <= i < targets.len() ==> (done@[i] || exists|k: int|
                    0 <= k < targets.deep_view()[i].depends_on.len() && !spec_name_done(
                        targets.deep_view(),
                        done@,
                        targets.deep_view()[i].depends_on[k],
                    )),
        },
{
    let ghost g = targets.deep_view();
    let mut i: usize = 0;
    while i < targets.len()
        invariant
            done.len() == targets.len(),
            spec_unique_names(g),
            g == targets.deep_view(),
            i <= targets.len(),
            forall|i2: int|
                0 <= i2 < i ==> (done@[i2] || exists|k: int|
                    0 <= k < g[i2].depends_on.len() && !spec_name_done(
                        g,
                        done@,
                        g[i2].depends_on[k],
                    )),
        decreases targets.len() - i,
    {
        if !done[i] && deps_done(targets, done, i) {
            return Some(i);
        }
        i += 1;
    }
    None
}

/// Scan the dependency list of `cur` for one that is not done yet.
fn find_undone_dep(targets: &Vec<Target>, done: &Vec<bool>, cur: usize) -> (r: usize)
    requires
        done.len() == targets.len(),
        spec_unique_names(targets.deep_view()),
        spec_deps_exist(targets.deep_view()),
        cur < targets.len(),
        exists|k: int|
            0 <= k < targets.deep_view()[cur as int].depends_on.len() && !spec_name_done(
                targets.deep_view(),
                done@,
                targets.deep_view()[cur as int].depends_on[k],
            ),
    ensures
        r < targets.len(),
        !done@[r as int],
        spec_dep_edge(
            targets.deep_view(),
            targets.deep_view()[cur as int].name,
            targets.deep_view()[r as int].name,
        ),
{
    let ghost g = targets.deep_view();
    let t = &targets[cur];
    let mut k: usize = 0;
    while k < t.depends_on.len()
        invariant
            done.len() == targets.len(),
            spec_unique_names(g),
            spec_deps_exist(g),
            g == targets.deep_view(),
            cur < targets.len(),
            t@ == g[cur as int],
            k <= t.depends_on.len(),
            exists|k2: int|
                0 <= k2 < g[cur as int].depends_on.len() && !spec_name_done(
                    g,
                    done@,
                    g[cur as int].depends_on[k2],
                ),
            forall|k2: int|
                0 <= k2 < k ==> spec_name_done(g, done@, #[trigger] g[cur as int].depends_on[k2]),
        decreases t.depends_on.len() - k,
    {
        proof {
            assert(t.depends_on.deep_view()[k as int] == g[cur as int].depends_on[k as int]);
        }
        match find_target(targets, &t.depends_on[k]) {
            Some(j) => {
                if !done[j] {
                    proof {
                        assert(g[cur as int].depends_on.contains(g[j as int].name));
                    }
                    return j;
                }
            },
            None => {
                proof {
                    assert(spec_has_target(g, g[cur as int].depends_on[k as int]));
                    assert(false);
                }
                return 0;
            },
        }
        k += 1;
    }
    proof {
        assert(false);
    }
    0
}

/// When elimination is stuck, walk undone dependencies until a name repeats:
/// the repeated stretch is a dependency cycle.
fn extract_cycle(targets: &Vec<Target>, done: &Vec<bool>, start: usize) -> (r: Vec<String>)
    requires
        done.len() == targets.len(),
        spec_unique_names(targets.deep_view()),
        spec_deps_exist(targets.deep_view()),
        start < targets.len(),
        !done@[start as int],
        forall|i: int|
            0 <= i < targets.len() ==> (done@[i] || exists|k: int|
                0 <= k < targets.deep_view()[i].depends_on.len() && !spec_name_done(
                    targets.deep_view(),
                    done@,
                    targets.deep_view()[i].depends_on[k],
                )),
    ensures
        spec_is_cycle(targets.deep_view(), r.deep_view()),
{
    let ghost g = targets.deep_view();
    let mut path: Vec<usize> = Vec::new();
    let ghost mut pg: Seq<int> = Seq::empty();
    path.push(start);
    proof {
        pg = pg.push(start as int);
    }
    loop
        invariant
            done.len() == targets.len(),
            spec_unique_names(g),
            spec_deps_exist(g),
            g == targets.deep_view(),
            forall|i: int|
                0 <= i < targets.len() ==> (done@[i] || exists|k: int|
                    0 <= k < g[i].depends_on.len() && !spec_name_done(
                        g,
                        done@,
                        g[i].depends_on[k],
                    )),
            path.len() >= 1,
            pg.len() == path.len(),
            forall|q: int| 0 <= q < path.len() ==> pg[q] == #[trigger] path@[q] as int,
            forall|q: int|
                0 <= q < path.len() ==> #[trigger] path@[q] < targets.len()
                    && !done@[path@[q] as int],
            pg.no_duplicates(),
            forall|q: int|
                0 <= q < path.len() - 1 ==> spec_dep_edge(
                    g,
                    #[trigger] g[path@[q] as int].name,
                    g[path@[q + 1] as int].name,
                ),
        decreases targets.len() - path.len(),
    {
        let cur = path[path.len() - 1];
        let next = find_undone_dep(targets, done, cur);
        let mut q: usize = 0;
        let mut hit: Option<usize> = None;
        while q < path.len() && hit.is_none()
            invariant
                q <= path.len(),
                hit is None ==> forall|q2: int| 0 <= q2 < q ==> path@[q2] != next,
                match hit {
                    Some(h) => h < path.len() && path@[h as int] == next,
                    None => true,
                },
            decreases path.len() - q + (if hit is None { 1int } else { 0int }),
        {
            if path[q] == next {
                hit = Some(q);
            } else {
                q += 1;
            }
        }
        match hit {
            Some(h) => {
                let mut names: Vec<String> = Vec::new();
                let mut m = h;
                while m < path.len()
                    invariant
                        g == targets.deep_view(),
                        h <= m <= path.len(),
                        forall|q2: int|
                            0 <= q2 < path.len() ==> #[trigger] path@[q2] < targets.len(),
                        names.len() == m - h,
                        forall|q2: int|
                            0 <= q2 < names.len() ==> #[trigger] names@[q2]@ == g[path@[h
                                + q2] as int].name,
                    decreases path.len() - m,
                {
                    let nm = targets[path[m]].name.clone();
                    proof {
                        assert(nm@ == g[path@[m as int] as int].name);
                    }
                    names.push(nm);
                    m += 1;
                }
                proof {
                    let c = names.deep_view();
                    assert(c.len() == path.len() - h);
                    assert(c.len() >= 1);
                    assert(forall|q2: int| 0 <= q2 < c.len() ==> #[trigger] c[q2] == names@[q2]@);
                    assert forall|k: int| 0 <= k < c.len() - 1 implies spec_dep_edge(
                        g,
                        #[trigger] c[k],
                        c[k + 1],
                    ) by {
                        assert(spec_dep_edge(
                            g,
                            g[path@[h + k] as int].name,
                            g[path@[h + k + 1] as int].name,
                        ));
                    }
                    assert(c[c.len() - 1] == g[path@[path.len() - 1] as int].name);
                    assert(c[0] == g[path@[h as int] as int].name);
                    assert(g[path@[h as int] as int].name == g[next as int].name);
                    assert(spec_dep_edge(g, c[c.len() - 1], c[0]));
                }
                return names;
            },
            None => {
                proof {
                    assert forall|j: int| 0 <= j < pg.len() implies pg[j] != next as int by {
                        assert(path@[j] != next);
                    }
                    assert(!pg.contains(next as int));
                    assert forall|j: int| 0 <= j < pg.len() implies 0 <= #[trigger] pg[j]
                        < targets.len() by {
                        assert(path@[j] < targets.len());
                    }
                    lemma_distinct_bounded(pg, targets.len() as int, next as int);
                }
                path.push(next);
                proof {
                    let pg2 = pg.push(next as int);
                    assert forall|a: int, b: int|
                        0 <= a < pg2.len() && 0 <= b < pg2.len() && a != b implies pg2[a]
                        != pg2[b] by {
                        if a < pg.len() && b < pg.len() {
                            assert(pg2[a] == pg[a] && pg2[b] == pg[b]);
                        } else if a < pg.len() {
                            assert(pg2[a] == pg[a] && pg2[b] == next as int);
                            assert(pg[a] != next as int);
                        } else {
                            assert(pg2[a] == next as int && pg2[b] == pg[b]);
                            assert(pg[b] != next as int);
                        }
                    }
                    pg = pg2;
                }
            },
        }
    }
}

/// Why a target graph was rejected: a dependency name that no target
/// carries, or the members of a dependency cycle.
pub enum TargetsCheckError {
    DependencyNotFound(String),
    DependencyLoop(Vec<String>),
}

/// Validates the graph: every dependency must name a target, and the
/// dependency relation must be acyclic (self-dependencies are cycles of
/// length one).  Succeeds exactly on valid graphs; an error carries a
/// witness of the violation.
pub fn check_targets(targets: &Vec<Target>) -> (r: Result<(), TargetsCheckError>)
    requires
        spec_unique_names(targets.deep_view()),
    ensures
        match r {
            Ok(()) => spec_deps_exist(targets.deep_view()) && spec_acyclic(targets.deep_view()),
            Err(TargetsCheckError::DependencyNotFound(d)) => !spec_has_target(
                targets.deep_view(),
                d@,
            ) && (exists|i: int, k: int|
                0 <= i < targets.len() && 0 <= k < targets.deep_view()[i].depends_on.len()
                    && targets.deep_view()[i].depends_on[k] == d@),
            Err(TargetsCheckError::DependencyLoop(c)) => spec_is_cycle(
                targets.deep_view(),
                c.deep_view(),
            ) && !spec_acyclic(targets.deep_view()),
        },
{
    let ghost g = targets.deep_view();
    let mut i: usize = 0;
    while i < targets.len()
        invariant
            spec_unique_names(g),
            g == targets.deep_view(),
            i <= targets.len(),
            forall|i2: int, k: int|
                0 <= i2 < i && 0 <= k < g[i2].depends_on.len() ==> spec_has_target(
                    g,
                    #[trigger] g[i2].depends_on[k],
                ),
        decreases targets.len() - i,
    {
        let t = &targets[i];
        let mut k: usize = 0;
        while k < t.depends_on.len()
            invariant
                g == targets.deep_view(),
                i < targets.len(),
                t@ == g[i as int],
                k <= t.depends_on.len(),
                forall|k2: int|
                    0 <= k2 < k ==> spec_has_target(g, #[trigger] g[i as int].depends_on[k2]),
            decreases t.depends_on.len() - k,
        {
            proof {
                assert(t.depends_on.deep_view()[k as int] == g[i as int].depends_on[k as int]);
            }
            if find_target(targets, &t.depends_on[k]).is_none() {
                let d = t.depends_on[k].clone();
                proof {
                    assert(g[i as int].depends_on[k as int] == d@);
                }
                return Err(TargetsCheckError::DependencyNotFound(d));
            }
            k += 1;
        }
        i += 1;
    }
    let mut done: Vec<bool> = Vec::new();
    let mut z: usize = 0;
    while z < targets.len()
        invariant
            done.len() == z,
            z <= targets.len(),
            forall|j: int| 0 <= j < z ==> !done@[j],
        decreases targets.len() - z,
    {
        done.push(false);
        z += 1;
    }
    let ghost mut order: Seq<int> = Seq::empty();
    let mut stop = false;
    while !stop
        invariant
            done.len() == targets.len(),
            spec_unique_names(g),
            spec_deps_exist(g),
            g == targets.deep_view(),
            spec_topo_ok(g, order),
            order.no_duplicates(),
            order.len() <= targets.len(),
            forall|i2: int| 0 <= i2 < targets.len() ==> (done@[i2] <==> order.contains(i2)),
            stop ==> forall|i2: int|
                0 <= i2 < targets.len() ==> (done@[i2] || exists|k: int|
                    0 <= k < g[i2].depends_on.len() && !spec_name_done(
                        g,
                        done@,
                        g[i2].depends_on[k],
                    )),
        decreases targets.len() - order.len() + (if stop { 0int } else { 1int }),
    {
        match find_addable(targets, &done) {
            Some(idx) => {
                proof {
                    assert(!order.contains(idx as int));
                    lemma_distinct_bounded(order, targets.len() as int, idx as int);
                }
                let ghost old_done = done@;
                done.set(idx, true);
                proof {
                    let order2 = order.push(idx as int);
                    assert forall|a: int, b: int|
                        0 <= a < order2.len() && 0 <= b < order2.len() && a != b implies order2[a]
                        != order2[b] by {
                        if a < order.len() && b < order.len() {
                            assert(order2[a] == order[a] && order2[b] == order[b]);
                        } else if a < order.len() {
                            assert(order2[a] == order[a] && order2[b] == idx as int);
                            if order[a] == idx as int {
                                assert(order.contains(idx as int));
                            }
                        } else {
                            assert(order2[a] == idx as int && order2[b] == order[b]);
                            if order[b] == idx as int {
                                assert(order.contains(idx as int));
                            }
                        }
                    }
                    assert forall|k: int| 0 <= k < order2.len() implies 0 <= #[trigger] order2[k]
                        < g.len() by {
                        if k < order.len() {
                            assert(order2[k] == order[k]);
                            assert(0 <= order[k] < g.len());
                        } else {
                            assert(order2[k] == idx as int);
                        }
                    }
                    assert forall|k: int, m: int|
                        0 <= k < order2.len() && 0 <= m < g[order2[k]].depends_on.len()
                            implies spec_named_before(
                        g,
                        order2,
                        k,
                        #[trigger] g[order2[k]].depends_on[m],
                    ) by {
                        if k < order.len() {
                            assert(order2[k] == order[k]);
                            assert(spec_named_before(g, order, k, g[order[k]].depends_on[m]));
                            let k2 = choose|k2: int|
                                0 <= k2 < k && k2 < order.len() && g[order[k2]].name == g[order[k]].depends_on[m];
                            assert(order2[k2] == order[k2]);
                            assert(g[order2[k2]].name == g[order2[k]].depends_on[m]);
                        } else {
                            assert(order2[k] == idx as int);
                            assert(g[order2[k]] == g[idx as int]);
                            assert(spec_name_done(g, old_done, g[idx as int].depends_on[m]));
                            let j = choose|j: int|
                                0 <= j < g.len() && g[j].name == g[idx as int].depends_on[m]
                                    && old_done[j];
                            assert(order.contains(j));
                            let k2 = choose|k2: int| 0 <= k2 < order.len() && order[k2] == j;
                            assert(order2[k2] == j);
                            assert(g[order2[k2]].name == g[order2[k]].depends_on[m]);
                        }
                    }
                    assert forall|i2: int|
                        0 <= i2 < targets.len() implies (done@[i2] <==> order2.contains(i2)) by {
                        if i2 == idx as int {
                            assert(order2[order2.len() - 1] == idx as int);
                            assert(order2.contains(i2));
                        } else {
                            if old_done[i2] {
                                assert(order.contains(i2));
                                let k2 = choose|k2: int|
                                    0 <= k2 < order.len() && order[k2] == i2;
                                assert(order2[k2] == i2);
                                assert(order2.contains(i2));
                            } else {
                                if order2.contains(i2) {
                                    let k2 = choose|k2: int|
                                        0 <= k2 < order2.len() && order2[k2] == i2;
                                    assert(k2 < order.len());
                                    assert(order[k2] == i2);
                                    assert(order.contains(i2));
                                }
                            }
                        }
                    }
                    order = order2;
                }
            },
            None => {
                stop = true;
            },
        }
    }
    let mut u: Option<usize> = None;
    let mut s: usize = 0;
    while s < targets.len() && u.is_none()
        invariant
            done.len() == targets.len(),
            s <= targets.len(),
            u is None ==> forall|j: int| 0 <= j < s ==> done@[j],
            match u {
                Some(x) => x < targets.len() && !done@[x as int],
                None => true,
            },
        decreases targets.len() - s + (if u is None { 1int } else { 0int }),
    {
        if !done[s] {
            u = Some(s);
        } else {
            s += 1;
        }
    }
    match u {
        None => {
            proof {
                lemma_topo_acyclic(g, order);
            }
            Ok(())
        },
        Some(su) => {
            let c = extract_cycle(targets, &done, su);
            proof {
                assert(!spec_acyclic(g));
            }
            Err(TargetsCheckError::DependencyLoop(c))
        },
    }
}

/// `b` can be reached from `a` by following at most `n` dependency edges.
pub open spec fn spec_reaches(g: Seq<TargetSpec>, a: Seq<char>, b: Seq<char>, n: nat) -> bool
    decreases n,
{
    a == b || (n > 0 && exists|m: Seq<char>|
        spec_dep_edge(g, a, m) && spec_reaches(g, m, b, (n - 1) as nat))
}

/// `x` lies in the dependency closure of some requested root.
pub open spec fn spec_reachable(g: Seq<TargetSpec>, roots: Seq<Seq<char>>, x: Seq<char>) -> bool {
    exists|r: Seq<char>, n: nat| roots.contains(r) && spec_reaches(g, r, x, n)
}

/// Appending one more dependency edge keeps a path a path.
proof fn lemma_reaches_extend(g: Seq<TargetSpec>, a: Seq<char>, b: Seq<char>, c: Seq<char>, n: nat)
    requires
        spec_reaches(g, a, b, n),
        spec_dep_edge(g, b, c),
    ensures
        spec_reaches(g, a, c, (n + 1) as nat),
    decreases n,
{
    if a == b {
        assert(spec_reaches(g, c, c, n));
        assert(spec_reaches(g, a, c, (n + 1) as nat));
    } else {
        let m = choose|m: Seq<char>|
            spec_dep_edge(g, a, m) && spec_reaches(g, m, b, (n - 1) as nat);
        lemma_reaches_extend(g, m, b, c, (n - 1) as nat);
        assert(spec_dep_edge(g, a, m) && spec_reaches(g, m, c, n));
    }
}

/// The set of done targets is closed under dependencies: then whatever a done
/// target reaches is done as well.
proof fn lemma_reaches_in_closed(g: Seq<TargetSpec>, inc: Seq<bool>, a: Seq<char>, x: Seq<char>, n: nat)
    requires
        spec_unique_names(g),
        inc.len() == g.len(),
        forall|i: int, m: int|
            0 <= i < g.len() && inc[i] && 0 <= m < g[i].depends_on.len() ==> spec_name_done(
                g,
                inc,
                #[trigger] g[i].depends_on[m],
            ),
        spec_name_done(g, inc, a),
        spec_reaches(g, a, x, n),
    ensures
        spec_name_done(g, inc, x),
    decreases n,
{
    if a != x {
        let m = choose|m: Seq<char>|
            spec_dep_edge(g, a, m) && spec_reaches(g, m, x, (n - 1) as nat);
        let i = choose|i: int|
            0 <= i < g.len() && g[i].name == a && g[i].depends_on.contains(m);
        let i2 = choose|i2: int| 0 <= i2 < g.len() && g[i2].name == a && inc[i2];
        assert(i == i2);
        let k = choose|k: int| 0 <= k < g[i].depends_on.len() && g[i].depends_on[k] == m;
        assert(spec_name_done(g, inc, g[i].depends_on[k]));
        lemma_reaches_in_closed(g, inc, m, x, (n - 1) as nat);
    }
}

/// One new index set to true keeps the flag list mirroring the order list.
proof fn lemma_flag_order_push(flags: Seq<bool>, order: Seq<int>, idx: int, n: int)
    requires
        flags.len() == n,
        0 <= idx < n,
        !flags[idx],
        order.no_duplicates(),
        forall|k: int| 0 <= k < order.len() ==> 0 <= #[trigger] order[k] < n,
        forall|i: int| 0 <= i < n ==> (flags[i] <==> order.contains(i)),
    ensures
        order.push(idx).no_duplicates(),
        forall|i: int|
            0 <= i < n ==> (flags.update(idx, true)[i] <==> order.push(idx).contains(i)),
        forall|k: int| 0 <= k < order.push(idx).len() ==> 0 <= #[trigger] order.push(idx)[k] < n,
{
    let order2 = order.push(idx);
    assert forall|a: int, b: int|
        0 <= a < order2.len() && 0 <= b < order2.len() && a != b implies order2[a] != order2[b] by {
        if a < order.len() && b < order.len() {
            assert(order2[a] == order[a] && order2[b] == order[b]);
        } else if a < order.len() {
            assert(order2[a] == order[a] && order2[b] == idx);
            if order[a] == idx {
                assert(order.contains(idx));
            }
        } else {
            assert(order2[a] == idx && order2[b] == order[b]);
            if order[b] == idx {
                assert(order.contains(idx));
            }
        }
    }
    assert forall|i: int|
        0 <= i < n implies (flags.update(idx, true)[i] <==> order2.contains(i)) by {
        if i == idx {
            assert(order2[order2.len() - 1] == idx);
            assert(order2.contains(i));
        } else {
            if flags[i] {
                let k2 = choose|k2: int| 0 <= k2 < order.len() && order[k2] == i;
                assert(order2[k2] == i);
                assert(order2.contains(i));
            } else {
                if order2.contains(i) {
                    let k2 = choose|k2: int| 0 <= k2 < order2.len() && order2[k2] == i;
                    assert(k2 < order.len());
                    assert(order[k2] == i);
                    assert(order.contains(i));
                }
            }
        }
    }
    assert forall|k: int| 0 <= k < order2.len() implies 0 <= #[trigger] order2[k] < n by {
        if k < order.len() {
            assert(order2[k] == order[k]);
        } else {
            assert(order2[k] == idx);
        }
    }
}

/// Some queued index points at a target named `d`.
pub open spec fn spec_in_pending(g: Seq<TargetSpec>, pend: Seq<usize>, d: Seq<char>) -> bool {
    exists|p: int| 0 <= p < pend.len() && g[pend[p] as int].name == d
}

/// Queueing one more index keeps every queued name queued.
proof fn lemma_in_pending_push(g: Seq<TargetSpec>, pend: Seq<usize>, x: usize, d: Seq<char>)
    requires
        spec_in_pending(g, pend, d),
    ensures
        spec_in_pending(g, pend.push(x), d),
{
    let p = choose|p: int| 0 <= p < pend.len() && g[pend[p] as int].name == d;
    assert(pend.push(x)[p] == pend[p]);
}

/// Popping the last index loses at most that index's name.
proof fn lemma_in_pending_pop(g: Seq<TargetSpec>, pend: Seq<usize>, d: Seq<char>)
    requires
        spec_in_pending(g, pend, d),
        pend.len() >= 1,
    ensures
        spec_in_pending(g, pend.drop_last(), d) || g[pend[pend.len() - 1] as int].name == d,
{
    let p = choose|p: int| 0 <= p < pend.len() && g[pend[p] as int].name == d;
    if p < pend.len() - 1 {
        assert(pend.drop_last()[p] == pend[p]);
    }
}

/// Every element of `sub` is carried over unchanged from `g`.
pub open spec fn spec_from_graph(g: Seq<TargetSpec>, sub: Seq<TargetSpec>) -> bool {
    forall|q: int| 0 <= q < sub.len() ==> g.contains(#[trigger] sub[q])
}

/// A sequence assembled by picking indices of `g` holds only elements of `g`.
proof fn lemma_from_graph(g: Seq<TargetSpec>, sub: Seq<TargetSpec>, ord: Seq<int>)
    requires
        sub.len() == ord.len(),
        forall|k: int| 0 <= k < ord.len() ==> 0 <= #[trigger] ord[k] < g.len(),
        forall|k: int| 0 <= k < sub.len() ==> #[trigger] sub[k] == g[ord[k]],
    ensures
        spec_from_graph(g, sub),
{
    assert forall|q: int| 0 <= q < sub.len() implies g.contains(#[trigger] sub[q]) by {
        assert(g[ord[q]] == sub[q]);
    }
}

/// Restrict the graph to the requested targets and everything they
/// transitively depend on.  Unknown requested names are all reported at
/// once; otherwise the result holds exactly the reachable targets, each
/// carried over unchanged.
pub fn filter_targets(all_targets: &Vec<Target>, requested_targets: &Vec<String>) -> (r: Result<
    Vec<Target>,
    Vec<String>,
>)
    requires
        spec_unique_names(all_targets.deep_view()),
        spec_deps_exist(all_targets.deep_view()),
    ensures
        match r {
            Ok(sub) => {
                &&& spec_unique_names(sub.deep_view())
                &&& spec_from_graph(all_targets.deep_view(), sub.deep_view())
                &&& forall|x: Seq<char>|
                    spec_has_target(sub.deep_view(), x) <==> spec_reachable(
                        all_targets.deep_view(),
                        requested_targets.deep_view(),
                        x,
                    )
                &&& forall|q: int|
                    0 <= q < requested_targets.len() ==> spec_has_target(
                        all_targets.deep_view(),
                        #[trigger] requested_targets.deep_view()[q],
                    )
            },
            Err(bad) => {
                &&& bad.len() >= 1
                &&& forall|j: int|
                    0 <= j < bad.len() ==> !spec_has_target(
                        all_targets.deep_view(),
                        #[trigger] bad.deep_view()[j],
                    ) && requested_targets.deep_view().contains(bad.deep_view()[j])
                &&& forall|q: int|
                    0 <= q < requested_targets.len() && !spec_has_target(
                        all_targets.deep_view(),
                        #[trigger] requested_targets.deep_view()[q],
                    ) ==> bad.deep_view().contains(requested_targets.deep_view()[q])
            },
        },
{
    let ghost g = all_targets.deep_view();
    let ghost reqv = requested_targets.deep_view();
    let mut bad: Vec<String> = Vec::new();
    let mut roots: Vec<usize> = Vec::new();
    let mut q: usize = 0;
    while q < requested_targets.len()
        invariant
            g == all_targets.deep_view(),
            reqv == requested_targets.deep_view(),
            q <= requested_targets.len(),
            forall|j: int|
                0 <= j < bad.len() ==> !spec_has_target(g, #[trigger] bad@[j]@) && reqv.contains(
                    bad@[j]@,
                ),
            forall|j: int|
                0 <= j < q && !spec_has_target(g, #[trigger] reqv[j]) ==> exists|b: int|
                    0 <= b < bad.len() && bad@[b]@ == reqv[j],
            forall|p: int|
                0 <= p < roots.len() ==> #[trigger] roots@[p] < all_targets.len() && reqv.contains(
                    g[roots@[p] as int].name,
                ),
            forall|j: int|
                0 <= j < q && spec_has_target(g, #[trigger] reqv[j]) ==> spec_in_pending(
                    g,
                    roots@,
                    reqv[j],
                ),
        decreases requested_targets.len() - q,
    {
        proof {
            assert(requested_targets@[q as int]@ == reqv[q as int]);
            assert(reqv.contains(reqv[q as int]));
        }
        let ghost old_roots = roots@;
        let ghost old_bad = bad@;
        match find_target(all_targets, &requested_targets[q]) {
            Some(jr) => {
                roots.push(jr);
                proof {
                    assert(g[jr as int].name == reqv[q as int]);
                    assert(roots@[roots.len() - 1] == jr);
                    assert forall|j: int|
                        0 <= j < q + 1 && spec_has_target(g, #[trigger] reqv[j])
                            implies spec_in_pending(g, roots@, reqv[j]) by {
                        if j < q {
                            lemma_in_pending_push(g, old_roots, jr, reqv[j]);
                        } else {
                            assert(g[roots@[roots.len() - 1] as int].name == reqv[j]);
                        }
                    }
                    assert forall|p: int|
                        0 <= p < roots.len() implies #[trigger] roots@[p] < all_targets.len()
                            && reqv.contains(g[roots@[p] as int].name) by {
                        if p < old_roots.len() {
                            assert(roots@[p] == old_roots[p]);
                        }
                    }
                }
            },
            None => {
                let nm = requested_targets[q].clone();
                proof {
                    assert(nm@ == reqv[q as int]);
                }
                bad.push(nm);
                proof {
                    assert(bad@[bad.len() - 1]@ == reqv[q as int]);
                    assert forall|j: int|
                        0 <= j < bad.len() implies !spec_has_target(g, #[trigger] bad@[j]@)
                            && reqv.contains(bad@[j]@) by {
                        if j < old_bad.len() {
                            assert(bad@[j] == old_bad[j]);
                        }
                    }
                    assert forall|j: int|
                        0 <= j < q + 1 && !spec_has_target(g, #[trigger] reqv[j]) implies exists|b: int|
                        0 <= b < bad.len() && bad@[b]@ == reqv[j] by {
                        if j < q {
                            let b = choose|b: int| 0 <= b < old_bad.len() && old_bad[b]@ == reqv[j];
                            assert(bad@[b] == old_bad[b]);
                        } else {
                            assert(bad@[bad.len() - 1]@ == reqv[j]);
                        }
                    }
                }
            },
        }
        q += 1;
    }
    if bad.len() > 0 {
        proof {
            assert(forall|j: int| 0 <= j < bad.len() ==> #[trigger] bad.deep_view()[j] == bad@[j]@);
            assert forall|j: int|
                0 <= j < requested_targets.len() && !spec_has_target(
                    g,
                    #[trigger] reqv[j],
                ) implies bad.deep_view().contains(reqv[j]) by {
                let b = choose|b: int| 0 <= b < bad.len() && bad@[b]@ == reqv[j];
                assert(bad.deep_view()[b] == reqv[j]);
            }
        }
        return Err(bad);
    }
    let mut inc: Vec<bool> = Vec::new();
    let mut z: usize = 0;
    while z < all_targets.len()
        invariant
            inc.len() == z,
            z <= all_targets.len(),
            forall|j: int| 0 <= j < z ==> !inc@[j],
        decreases all_targets.len() - z,
    {
        inc.push(false);
        z += 1;
    }
    let mut result: Vec<Target> = Vec::new();
    let ghost mut iorder: Seq<int> = Seq::empty();
    let mut pending: Vec<usize> = roots;
    proof {
        assert forall|p: int|
            0 <= p < pending.len() implies #[trigger] pending@[p] < all_targets.len()
                && spec_reachable(g, reqv, g[pending@[p] as int].name) by {
            let nm = g[pending@[p] as int].name;
            assert(spec_reaches(g, nm, nm, 0));
            assert(reqv.contains(nm));
        }
        assert forall|j: int|
            0 <= j < requested_targets.len() implies spec_name_done(g, inc@, #[trigger] reqv[j])
                || spec_in_pending(g, pending@, reqv[j]) by {
            assert(spec_has_target(g, reqv[j]));
        }
    }
    while pending.len() > 0
        invariant
            g == all_targets.deep_view(),
            reqv == requested_targets.deep_view(),
            spec_unique_names(g),
            spec_deps_exist(g),
            inc.len() == all_targets.len(),
            iorder.no_duplicates(),
            forall|k: int| 0 <= k < iorder.len() ==> 0 <= #[trigger] iorder[k] < all_targets.len(),
            forall|i: int| 0 <= i < inc.len() ==> (inc@[i] <==> iorder.contains(i)),
            result.len() == iorder.len(),
            forall|k: int|
                0 <= k < result.len() ==> #[trigger] result.deep_view()[k] == g[iorder[k]],
            forall|i: int| 0 <= i < inc.len() && inc@[i] ==> spec_reachable(g, reqv, g[i].name),
            forall|p: int|
                0 <= p < pending.len() ==> #[trigger] pending@[p] < all_targets.len()
                    && spec_reachable(g, reqv, g[pending@[p] as int].name),
            forall|i: int, m: int|
                0 <= i < inc.len() && inc@[i] && 0 <= m < g[i].depends_on.len() ==> spec_name_done(
                    g,
                    inc@,
                    #[trigger] g[i].depends_on[m],
                ) || spec_in_pending(g, pending@, g[i].depends_on[m]),
            forall|j: int|
                0 <= j < requested_targets.len() ==> spec_name_done(g, inc@, #[trigger] reqv[j])
                    || spec_in_pending(g, pending@, reqv[j]),
        decreases all_targets.len() - iorder.len(), pending.len(),
    {
        let ghost old_pending = pending@;
        let ghost old_inc = inc@;
        let j = match pending.pop() {
            Some(x) => x,
            None => {
                proof {
                    assert(false);
                }
                0
            },
        };
        proof {
            assert(pending@ =~= old_pending.drop_last());
            assert(old_pending[old_pending.len() - 1] == j);
        }
        if !inc[j] {
            proof {
                assert(!iorder.contains(j as int));
                lemma_distinct_bounded(iorder, all_targets.len() as int, j as int);
                lemma_flag_order_push(inc@, iorder, j as int, all_targets.len() as int);
            }
            let ghost old_result = result.deep_view();
            let ghost old_resv = result@;
            inc.set(j, true);
            result.push(all_targets[j].clone());
            proof {
                iorder = iorder.push(j as int);
                assert forall|k: int|
                    0 <= k < result.len() implies #[trigger] result.deep_view()[k]
                    == g[iorder[k]] by {
                    if k < result.len() - 1 {
                        assert(result@[k] == old_resv[k]);
                        assert(result.deep_view()[k] == old_result[k]);
                        assert(iorder[k] == iorder.drop_last()[k]);
                    } else {
                        assert(iorder[k] == j as int);
                        assert(result.deep_view()[k] == result@[k]@);
                    }
                }
            }
            proof {
                assert(inc@[j as int]);
                assert forall|d: Seq<char>|
                    spec_name_done(g, old_inc, d) implies spec_name_done(g, inc@, d) by {
                    let w = choose|w: int| 0 <= w < g.len() && g[w].name == d && old_inc[w];
                    assert(inc@[w]);
                }
                assert forall|i: int, m2: int|
                    0 <= i < inc.len() && inc@[i] && i != j as int && 0 <= m2 < g[
                        i
                    ].depends_on.len() implies spec_name_done(
                    g,
                    inc@,
                    #[trigger] g[i].depends_on[m2],
                ) || spec_in_pending(g, pending@, g[i].depends_on[m2]) by {
                    let d = g[i].depends_on[m2];
                    if !spec_name_done(g, old_inc, d) {
                        assert(spec_in_pending(g, old_pending, d));
                        lemma_in_pending_pop(g, old_pending, d);
                        if g[old_pending[old_pending.len() - 1] as int].name == d {
                            assert(spec_name_done(g, inc@, d));
                        }
                    }
                }
                assert forall|j2: int|
                    0 <= j2 < requested_targets.len() implies spec_name_done(
                    g,
                    inc@,
                    #[trigger] reqv[j2],
                ) || spec_in_pending(g, pending@, reqv[j2]) by {
                    if !spec_name_done(g, old_inc, reqv[j2]) {
                        assert(spec_in_pending(g, old_pending, reqv[j2]));
                        lemma_in_pending_pop(g, old_pending, reqv[j2]);
                        if g[old_pending[old_pending.len() - 1] as int].name == reqv[j2] {
                            assert(spec_name_done(g, inc@, reqv[j2]));
                        }
                    }
                }
            }
            let t = &all_targets[j];
            let mut m: usize = 0;
            while m < t.depends_on.len()
                invariant
                    g == all_targets.deep_view(),
                    reqv == requested_targets.deep_view(),
                    spec_unique_names(g),
                    spec_deps_exist(g),
                    inc.len() == all_targets.len(),
                    j < all_targets.len(),
                    inc@[j as int],
                    t@ == g[j as int],
                    m <= t.depends_on.len(),
                    spec_reachable(g, reqv, g[j as int].name),
                    forall|i: int|
                        0 <= i < inc.len() && inc@[i] ==> spec_reachable(g, reqv, g[i].name),
                    forall|p: int|
                        0 <= p < pending.len() ==> #[trigger] pending@[p] < all_targets.len()
                            && spec_reachable(g, reqv, g[pending@[p] as int].name),
                    forall|m2: int|
                        0 <= m2 < m ==> spec_name_done(
                            g,
                            inc@,
                            #[trigger] g[j as int].depends_on[m2],
                        ) || spec_in_pending(g, pending@, g[j as int].depends_on[m2]),
                    forall|i: int, m2: int|
                        0 <= i < inc.len() && inc@[i] && i != j as int && 0 <= m2 < g[
                            i
                        ].depends_on.len() ==> spec_name_done(
                            g,
                            inc@,
                            #[trigger] g[i].depends_on[m2],
                        ) || spec_in_pending(g, pending@, g[i].depends_on[m2]),
                    forall|j2: int|
                        0 <= j2 < requested_targets.len() ==> spec_name_done(
                            g,
                            inc@,
                            #[trigger] reqv[j2],
                        ) || spec_in_pending(g, pending@, reqv[j2]),
                decreases t.depends_on.len() - m,
            {
                proof {
                    assert(t.depends_on.deep_view()[m as int] == g[j as int].depends_on[m as int]);
                }
                match find_target(all_targets, &t.depends_on[m]) {
                    Some(dj) => {
                        proof {
                            assert(g[j as int].depends_on.contains(g[dj as int].name));
                            assert(spec_dep_edge(g, g[j as int].name, g[dj as int].name));
                            let (r0, n0) = choose|r0: Seq<char>, n0: nat|
                                reqv.contains(r0) && spec_reaches(g, r0, g[j as int].name, n0);
                            lemma_reaches_extend(g, r0, g[j as int].name, g[dj as int].name, n0);
                            assert(spec_reachable(g, reqv, g[dj as int].name));
                        }
                        let ghost pend_before = pending@;
                        pending.push(dj);
                        proof {
                            assert(pending@[pending.len() - 1] == dj);
                            assert(g[dj as int].name == g[j as int].depends_on[m as int]);
                            assert(spec_in_pending(g, pending@, g[j as int].depends_on[m as int]));
                            assert forall|p: int|
                                0 <= p < pending.len() implies #[trigger] pending@[p]
                                < all_targets.len() && spec_reachable(
                                g,
                                reqv,
                                g[pending@[p] as int].name,
                            ) by {
                                if p < pend_before.len() {
                                    assert(pending@[p] == pend_before[p]);
                                }
                            }
                            assert forall|m2: int|
                                0 <= m2 < m + 1 implies spec_name_done(
                                g,
                                inc@,
                                #[trigger] g[j as int].depends_on[m2],
                            ) || spec_in_pending(g, pending@, g[j as int].depends_on[m2]) by {
                                if m2 < m {
                                    if !spec_name_done(g, inc@, g[j as int].depends_on[m2]) {
                                        lemma_in_pending_push(
                                            g,
                                            pend_before,
                                            dj,
                                            g[j as int].depends_on[m2],
                                        );
                                    }
                                }
                            }
                            assert forall|i: int, m2: int|
                                0 <= i < inc.len() && inc@[i] && i != j as int && 0 <= m2 < g[
                                    i
                                ].depends_on.len() implies spec_name_done(
                                g,
                                inc@,
                                #[trigger] g[i].depends_on[m2],
                            ) || spec_in_pending(g, pending@, g[i].depends_on[m2]) by {
                                if !spec_name_done(g, inc@, g[i].depends_on[m2]) {
                                    lemma_in_pending_push(
                                        g,
                                        pend_before,
                                        dj,
                                        g[i].depends_on[m2],
                                    );
                                }
                            }
                            assert forall|j2: int|
                                0 <= j2 < requested_targets.len() implies spec_name_done(
                                g,
                                inc@,
                                #[trigger] reqv[j2],
                            ) || spec_in_pending(g, pending@, reqv[j2]) by {
                                if !spec_name_done(g, inc@, reqv[j2]) {
                                    lemma_in_pending_push(g, pend_before, dj, reqv[j2]);
                                }
                            }
                        }
                    },
                    None => {
                        proof {
                            assert(spec_has_target(g, g[j as int].depends_on[m as int]));
                            assert(false);
                        }
                    },
                }
                m += 1;
            }
        } else {
            proof {
                assert(inc@ =~= old_inc);
                assert(inc@[j as int]);
                assert forall|i: int, m2: int|
                    0 <= i < inc.len() && inc@[i] && 0 <= m2 < g[i].depends_on.len()
                        implies spec_name_done(g, inc@, #[trigger] g[i].depends_on[m2])
                    || spec_in_pending(g, pending@, g[i].depends_on[m2]) by {
                    let d = g[i].depends_on[m2];
                    if !spec_name_done(g, inc@, d) {
                        assert(spec_in_pending(g, old_pending, d));
                        lemma_in_pending_pop(g, old_pending, d);
                        if g[old_pending[old_pending.len() - 1] as int].name == d {
                            assert(g[j as int].name == d);
                            assert(spec_name_done(g, inc@, d));
                        }
                    }
                }
                assert forall|j2: int|
                    0 <= j2 < requested_targets.len() implies spec_name_done(
                    g,
                    inc@,
                    #[trigger] reqv[j2],
                ) || spec_in_pending(g, pending@, reqv[j2]) by {
                    if !spec_name_done(g, inc@, reqv[j2]) {
                        assert(spec_in_pending(g, old_pending, reqv[j2]));
                        lemma_in_pending_pop(g, old_pending, reqv[j2]);
                        if g[old_pending[old_pending.len() - 1] as int].name == reqv[j2] {
                            assert(spec_name_done(g, inc@, reqv[j2]));
                        }
                    }
                }
            }
        }
    }
    proof {
        let subv = result.deep_view();
        assert forall|x: Seq<char>| spec_has_target(subv, x) implies spec_reachable(
            g,
            reqv,
            x,
        ) by {
            let k = choose|k: int| 0 <= k < subv.len() && subv[k].name == x;
            assert(subv[k] == g[iorder[k]]);
            assert(iorder.contains(iorder[k]));
            assert(inc@[iorder[k]]);
        }
        assert forall|x: Seq<char>| spec_reachable(g, reqv, x) implies spec_has_target(
            subv,
            x,
        ) by {
            let (r0, n0) = choose|r0: Seq<char>, n0: nat|
                reqv.contains(r0) && spec_reaches(g, r0, x, n0);
            let j2 = choose|j2: int| 0 <= j2 < reqv.len() && reqv[j2] == r0;
            assert(spec_name_done(g, inc@, reqv[j2]));
            lemma_reaches_in_closed(g, inc@, r0, x, n0);
            let w = choose|w: int| 0 <= w < g.len() && g[w].name == x && inc@[w];
            assert(iorder.contains(w));
            let k = choose|k: int| 0 <= k < iorder.len() && iorder[k] == w;
            assert(subv[k] == g[w]);
            assert(subv[k].name == x);
        }
        assert forall|a: int, b: int| 0 <= a < b < subv.len() implies subv[a].name
            != subv[b].name by {
            assert(subv[a] == g[iorder[a]] && subv[b] == g[iorder[b]]);
            assert(iorder[a] != iorder[b]);
        }
        lemma_from_graph(g, subv, iorder);
        assert forall|q2: int|
            0 <= q2 < requested_targets.len() implies spec_has_target(
            g,
            #[trigger] reqv[q2],
        ) by {
            assert(spec_name_done(g, inc@, reqv[q2]));
        }
    }
    Ok(result)
}

/// Do all targets carry distinct names?  The executable mirror of
/// [`spec_unique_names`].
pub fn has_unique_names(targets: &Vec<Target>) -> (r: bool)
    ensures
        r == spec_unique_names(targets.deep_view()),
{
    let ghost g = targets.deep_view();
    let mut i: usize = 0;
    while i < targets.len()
        invariant
            g == targets.deep_view(),
            i <= targets.len(),
            forall|i2: int, j2: int| 0 <= i2 < j2 < targets.len() && i2 < i ==> g[i2].name != g[j2].name,
        decreases targets.len() - i,
    {
        let mut j: usize = i + 1;
        while j < targets.len()
            invariant
                g == targets.deep_view(),
                i < j,
                i < targets.len(),
                j <= targets.len(),
                forall|j2: int| i < j2 < j ==> g[i as int].name != g[j2].name,
            decreases targets.len() - j,
        {
            if targets[i].name == targets[j].name {
                proof {
                    assert(g[i as int].name == g[j as int].name);
                }
                return false;
            }
            j += 1;
        }
        i += 1;
    }
    true
}

} // verus!
