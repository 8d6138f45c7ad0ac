//! The build loop's decisions: which targets a change event marks, which
//! targets are eligible for dispatch, and how results move the runtime
//! state.  The loop around these decisions — watching, spawning, sleeping —
//! belongs to the embedding program; every decision is taken here.

use vstd::prelude::*;
use crate::domain::Target;
use crate::domain::TargetSpec;
use crate::domain::contains_string;
use crate::domain::insert_name;
use crate::domain::remove_name;
use crate::domain::spec_distinct;

verus! {

/// Outcome of one dispatched build, reported back to the loop.
pub enum BuildResultState {
    Success,
    Fail,
    Skip,
}

/// Mathematical image of a [`BuildResult`].
pub struct BuildResultSpec {
    pub target: Seq<char>,
    pub state: BuildResultState,
    pub output: Seq<char>,
}

/// The message a build task sends when it finishes.
pub struct BuildResult {
    pub target: String,
    pub state: BuildResultState,
    pub output: String,
}

impl View for BuildResult {
    type V = BuildResultSpec;

    open spec fn view(&self) -> BuildResultSpec {
        BuildResultSpec { target: self.target@, state: self.state, output: self.output@ }
    }
}

impl DeepView for BuildResult {
    type V = BuildResultSpec;

    open spec fn deep_view(&self) -> BuildResultSpec {
        self.view()
    }
}

/// A fatal condition that ends the whole loop: some target's build failed.
pub enum BuildLoopError {
    BuildFailed(String),
}

/// The scheduler's runtime state: targets built at least once in this run,
/// targets with a build in flight, and targets with an unconsumed change.
pub struct BuildState {
    pub built: Vec<String>,
    pub building: Vec<String>,
    pub changed: Vec<String>,
}

impl BuildState {
    /// Each of the three lists is a set: no name occurs twice.
    pub open spec fn wf(&self) -> bool {
        &&& spec_distinct(self.built.deep_view())
        &&& spec_distinct(self.building.deep_view())
        &&& spec_distinct(self.changed.deep_view())
    }

    /// The state at loop start: nothing built, building or changed.
    pub fn new() -> (r: BuildState)
        ensures
            r.wf(),
            r.built.deep_view() == Seq::<Seq<char>>::empty(),
            r.building.deep_view() == Seq::<Seq<char>>::empty(),
            r.changed.deep_view() == Seq::<Seq<char>>::empty(),
    {
        let r = BuildState { built: Vec::new(), building: Vec::new(), changed: Vec::new() };
        proof {
            assert(r.built.deep_view() =~= Seq::<Seq<char>>::empty());
            assert(r.building.deep_view() =~= Seq::<Seq<char>>::empty());
            assert(r.changed.deep_view() =~= Seq::<Seq<char>>::empty());
        }
        r
    }
}

/// A target may be dispatched exactly when every dependency is built, it is
/// not already building, and — once built — only an incremental target with
/// an unconsumed change builds again.
pub open spec fn spec_eligible(
    t: TargetSpec,
    built: Seq<Seq<char>>,
    building: Seq<Seq<char>>,
    changed: Seq<Seq<char>>,
) -> bool {
    &&& forall|k: int| 0 <= k < t.depends_on.len() ==> built.contains(#[trigger] t.depends_on[k])
    &&& !building.contains(t.name)
    &&& (built.contains(t.name) ==> (t.incremental && changed.contains(t.name)))
}

/// `prefix` is an initial run of `s`.
pub open spec fn spec_is_prefix(prefix: Seq<char>, s: Seq<char>) -> bool {
    prefix.len() <= s.len() && s.subrange(0, prefix.len() as int) == prefix
}

/// Some watch path of the target is a prefix of `path`.
pub open spec fn spec_watch_match(t: TargetSpec, path: Seq<char>) -> bool {
    exists|k: int| 0 <= k < t.watch_list.len() && spec_is_prefix(#[trigger] t.watch_list[k], path)
}

/// Relies on str::starts_with with a str pattern: true exactly when
/// `prefix` is a prefix of `s`.
#[verifier::external_body]
fn str_starts_with(s: &str, prefix: &str) -> (r: bool)
    ensures
        r == spec_is_prefix(prefix@, s@),
{
    s.starts_with(prefix)
}

/// The changed set after the first `i` targets have been examined for one
/// event: what was changed before, plus every examined target that the
/// event's path matches.
pub open spec fn spec_changed_upto(
    g: Seq<TargetSpec>,
    changed0: Seq<Seq<char>>,
    path: Seq<char>,
    i: int,
    x: Seq<char>,
) -> bool {
    changed0.contains(x) || exists|i2: int|
        0 <= i2 < i && (#[trigger] g[i2]).name == x && spec_watch_match(g[i2], path)
}

/// The scheduler over a validated target graph.
pub struct Builder {
    pub targets: Vec<Target>,
}

impl Builder {
    /// Wrap the (already filtered and validated) graph.
    pub fn new(targets: Vec<Target>) -> (r: Builder)
        ensures
            r.targets == targets,
    {
        Builder { targets }
    }

    /// The dispatch decision for one target, the executable mirror of
    /// [`spec_eligible`].
    pub fn is_target_to_build(
        target_name: &String,
        target: &Target,
        built_targets: &Vec<String>,
        building: &Vec<String>,
        has_changed_files: &Vec<String>,
    ) -> (r: bool)
        requires
            target_name@ == target@.name,
        ensures
            r == spec_eligible(
                target@,
                built_targets.deep_view(),
                building.deep_view(),
                has_changed_files.deep_view(),
            ),
    {
        let mut k: usize = 0;
        while k < target.depends_on.len()
            invariant
                k <= target.depends_on.len(),
                forall|k2: int|
                    0 <= k2 < k ==> built_targets.deep_view().contains(
                        #[trigger] target@.depends_on[k2],
                    ),
            decreases target.depends_on.len() - k,
        {
            proof {
                assert(target.depends_on.deep_view()[k as int] == target@.depends_on[k as int]);
            }
            if !contains_string(built_targets, &target.depends_on[k]) {
                return false;
            }
            k += 1;
        }
        if contains_string(building, target_name) {
            return false;
        }
        if contains_string(built_targets, target_name) {
            if !target.incremental {
                return false;
            }
            if !contains_string(has_changed_files, target_name) {
                return false;
            }
        }
        true
    }

    /// Does any watch path of `target` cover `path`?
    fn watch_matches(target: &Target, path: &String) -> (r: bool)
        ensures
            r == spec_watch_match(target@, path@),
    {
        let mut k: usize = 0;
        while k < target.watch_list.len()
            invariant
                k <= target.watch_list.len(),
                forall|k2: int|
                    0 <= k2 < k ==> !spec_is_prefix(#[trigger] target@.watch_list[k2], path@),
            decreases target.watch_list.len() - k,
        {
            proof {
                assert(target.watch_list.deep_view()[k as int] == target@.watch_list[k as int]);
            }
            if str_starts_with(path.as_str(), target.watch_list[k].as_str()) {
                return true;
            }
            k += 1;
        }
        false
    }

    /// Mark as changed every target one of whose watch paths covers the
    /// event's path — and no other target.
    pub fn note_path_changed(&self, changed: &mut Vec<String>, relative_path: &String)
        requires
            spec_distinct(old(changed).deep_view()),
        ensures
            spec_distinct(final(changed).deep_view()),
            forall|x: Seq<char>|
                final(changed).deep_view().contains(x) == spec_changed_upto(
                    self.targets.deep_view(),
                    old(changed).deep_view(),
                    relative_path@,
                    self.targets@.len() as int,
                    x,
                ),
    {
        let ghost g = self.targets.deep_view();
        let ghost changed0 = changed.deep_view();
        let mut i: usize = 0;
        while i < self.targets.len()
            invariant
                g == self.targets.deep_view(),
                spec_distinct(changed.deep_view()),
                i <= self.targets.len(),
                forall|x: Seq<char>|
                    changed.deep_view().contains(x) == spec_changed_upto(
                        g,
                        changed0,
                        relative_path@,
                        i as int,
                        x,
                    ),
            decreases self.targets.len() - i,
        {
            let ghost changed_pre = changed.deep_view();
            let t = &self.targets[i];
            proof {
                assert(t@ == g[i as int]);
            }
            if Self::watch_matches(t, relative_path) {
                insert_name(changed, &t.name);
            }
            proof {
                assert forall|x: Seq<char>|
                    changed.deep_view().contains(x) == spec_changed_upto(
                    g,
                    changed0,
                    relative_path@,
                    i + 1,
                    x,
                ) by {
                    if changed.deep_view().contains(x) {
                        if changed_pre.contains(x) {
                            assert(spec_changed_upto(g, changed0, relative_path@, i as int, x));
                        } else {
                            assert(g[i as int].name == x && spec_watch_match(
                                g[i as int],
                                relative_path@,
                            ));
                        }
                    }
                    if spec_changed_upto(g, changed0, relative_path@, i + 1, x) {
                        if changed0.contains(x) {
                            assert(changed_pre.contains(x));
                        } else {
                            let i2 = choose|i2: int|
                                0 <= i2 < i + 1 && (#[trigger] g[i2]).name == x
                                    && spec_watch_match(g[i2], relative_path@);
                            if i2 < i {
                                assert(spec_changed_upto(g, changed0, relative_path@, i as int, x));
                                assert(changed_pre.contains(x));
                            }
                        }
                    }
                }
            }
            i += 1;
        }
    }

    /// Select every eligible target, judged against the given state as one
    /// batch.
    pub fn select_pending(
        &self,
        built_targets: &Vec<String>,
        building: &Vec<String>,
        changed: &Vec<String>,
    ) -> (r: Vec<String>)
        requires
            crate::graph::spec_unique_names(self.targets.deep_view()),
        ensures
            spec_distinct(r.deep_view()),
            forall|x: Seq<char>|
                r.deep_view().contains(x) == (exists|i: int|
                    0 <= i < self.targets@.len() && (#[trigger] self.targets.deep_view()[i]).name
                        == x && spec_eligible(
                        self.targets.deep_view()[i],
                        built_targets.deep_view(),
                        building.deep_view(),
                        changed.deep_view(),
                    )),
    {
        let ghost g = self.targets.deep_view();
        let mut pending: Vec<String> = Vec::new();
        let mut i: usize = 0;
        while i < self.targets.len()
            invariant
                g == self.targets.deep_view(),
                crate::graph::spec_unique_names(g),
                i <= self.targets.len(),
                forall|x: Seq<char>|
                    pending.deep_view().contains(x) == (exists|i2: int|
                        0 <= i2 < i && (#[trigger] g[i2]).name == x && spec_eligible(
                            g[i2],
                            built_targets.deep_view(),
                            building.deep_view(),
                            changed.deep_view(),
                        )),
                spec_distinct(pending.deep_view()),
            decreases self.targets.len() - i,
        {
            let ghost pending0 = pending.deep_view();
            let t = &self.targets[i];
            proof {
                assert(t@ == g[i as int]);
            }
            if Self::is_target_to_build(&t.name, t, built_targets, building, changed) {
                proof {
                    if pending0.contains(t@.name) {
                        let i2 = choose|i2: int|
                            0 <= i2 < i && (#[trigger] g[i2]).name == t@.name && spec_eligible(
                                g[i2],
                                built_targets.deep_view(),
                                building.deep_view(),
                                changed.deep_view(),
                            );
                        assert(false);
                    }
                }
                insert_name(&mut pending, &t.name);
            }
            proof {
                assert forall|x: Seq<char>|
                    pending.deep_view().contains(x) == (exists|i2: int|
                        0 <= i2 < i + 1 && (#[trigger] g[i2]).name == x && spec_eligible(
                            g[i2],
                            built_targets.deep_view(),
                            building.deep_view(),
                            changed.deep_view(),
                        )) by {
                    if pending.deep_view().contains(x) {
                        if pending0.contains(x) {
                        } else {
                            assert(g[i as int].name == x);
                        }
                    }
                    if exists|i2: int|
                        0 <= i2 < i + 1 && (#[trigger] g[i2]).name == x && spec_eligible(
                            g[i2],
                            built_targets.deep_view(),
                            building.deep_view(),
                            changed.deep_view(),
                        ) {
                        let i2 = choose|i2: int|
                            0 <= i2 < i + 1 && (#[trigger] g[i2]).name == x && spec_eligible(
                                g[i2],
                                built_targets.deep_view(),
                                building.deep_view(),
                                changed.deep_view(),
                            );
                        if i2 < i {
                            assert(pending0.contains(x));
                        } else {
                            assert(pending.deep_view().contains(x));
                        }
                    }
                }
            }
            i += 1;
        }
        pending
    }

    /// Add every pending target to the set of names, keeping it a set.
    pub fn mark_dispatched(names: &mut Vec<String>, pending: &Vec<String>)
        requires
            spec_distinct(old(names).deep_view()),
        ensures
            spec_distinct(final(names).deep_view()),
            forall|x: Seq<char>|
                final(names).deep_view().contains(x) == (old(names).deep_view().contains(x)
                    || pending.deep_view().contains(x)),
    {
        let mut d: usize = 0;
        while d < pending.len()
            invariant
                spec_distinct(names.deep_view()),
                d <= pending.len(),
                forall|x: Seq<char>|
                    names.deep_view().contains(x) == (old(names).deep_view().contains(x) || exists|
                    p: int| 0 <= p < d && #[trigger] pending.deep_view()[p] == x),
            decreases pending.len() - d,
        {
            proof {
                assert(pending@[d as int]@ == pending.deep_view()[d as int]);
            }
            insert_name(names, &pending[d]);
            d += 1;
        }
        proof {
            assert forall|x: Seq<char>|
                names.deep_view().contains(x) == (old(names).deep_view().contains(x)
                    || pending.deep_view().contains(x)) by {
                if pending.deep_view().contains(x) {
                    let p = choose|p: int|
                        0 <= p < pending.deep_view().len() && pending.deep_view()[p] == x;
                }
            }
        }
    }

    /// Drop every pending target from the set of names: its change mark is
    /// consumed by the dispatch.
    pub fn consume_changes(names: &mut Vec<String>, pending: &Vec<String>)
        requires
            spec_distinct(old(names).deep_view()),
        ensures
            spec_distinct(final(names).deep_view()),
            forall|x: Seq<char>|
                final(names).deep_view().contains(x) == (old(names).deep_view().contains(x)
                    && !pending.deep_view().contains(x)),
    {
        let mut d: usize = 0;
        while d < pending.len()
            invariant
                spec_distinct(names.deep_view()),
                d <= pending.len(),
                forall|x: Seq<char>|
                    names.deep_view().contains(x) == (old(names).deep_view().contains(x) && !(
                    exists|p: int| 0 <= p < d && #[trigger] pending.deep_view()[p] == x)),
            decreases pending.len() - d,
        {
            proof {
                assert(pending@[d as int]@ == pending.deep_view()[d as int]);
            }
            remove_name(names, &pending[d]);
            d += 1;
        }
        proof {
            assert forall|x: Seq<char>|
                names.deep_view().contains(x) == (old(names).deep_view().contains(x)
                    && !pending.deep_view().contains(x)) by {
                if pending.deep_view().contains(x) {
                    let p = choose|p: int|
                        0 <= p < pending.deep_view().len() && pending.deep_view()[p] == x;
                }
            }
        }
    }

    /// Fold one build result into the runtime state.  A failure is fatal
    /// and leaves the state untouched; otherwise — success or skip alike —
    /// the target moves from `building` into `built`.
    pub fn parse_build_result(
        &self,
        result: &BuildResult,
        building: &mut Vec<String>,
        built_targets: &mut Vec<String>,
    ) -> (r: Result<(), BuildLoopError>)
        requires
            spec_distinct(old(building).deep_view()),
            spec_distinct(old(built_targets).deep_view()),
        ensures
            spec_distinct(final(building).deep_view()),
            spec_distinct(final(built_targets).deep_view()),
            match r {
                Ok(()) => {
                    &&& !(result.state is Fail)
                    &&& forall|x: Seq<char>|
                        final(building).deep_view().contains(x) == (old(
                            building,
                        ).deep_view().contains(x) && x != result.target@)
                    &&& forall|x: Seq<char>|
                        final(built_targets).deep_view().contains(x) == (old(
                            built_targets,
                        ).deep_view().contains(x) || x == result.target@)
                },
                Err(BuildLoopError::BuildFailed(t)) => {
                    &&& result.state is Fail
                    &&& t@ == result.target@
                    &&& final(building).deep_view() == old(building).deep_view()
                    &&& final(built_targets).deep_view() == old(built_targets).deep_view()
                },
            },
    {
        match result.state {
            BuildResultState::Fail => {
                return Err(BuildLoopError::BuildFailed(result.target.clone()));
            },
            _ => {},
        }
        remove_name(building, &result.target);
        insert_name(built_targets, &result.target);
        Ok(())
    }
}

/// A target is dispatched only after every one of its dependencies is in
/// the built set.
pub proof fn law_dependencies_built_first(
    g: Seq<TargetSpec>,
    built: Seq<Seq<char>>,
    building: Seq<Seq<char>>,
    changed: Seq<Seq<char>>,
    dispatched: Seq<Seq<char>>,
)
    requires
        crate::graph::spec_unique_names(g),
        forall|x: Seq<char>|
            dispatched.contains(x) ==> exists|i: int|
                0 <= i < g.len() && (#[trigger] g[i]).name == x && spec_eligible(
                    g[i],
                    built,
                    building,
                    changed,
                ),
    ensures
        forall|i: int, k: int|
            0 <= i < g.len() && dispatched.contains(#[trigger] g[i].name) && 0 <= k < g[
                i
            ].depends_on.len() ==> built.contains(#[trigger] g[i].depends_on[k]),
{
    assert forall|i: int, k: int|
        0 <= i < g.len() && dispatched.contains(#[trigger] g[i].name) && 0 <= k < g[
            i
        ].depends_on.len() implies built.contains(#[trigger] g[i].depends_on[k]) by {
        let i2 = choose|i2: int|
            0 <= i2 < g.len() && (#[trigger] g[i2]).name == g[i].name && spec_eligible(
                g[i2],
                built,
                building,
                changed,
            );
        assert(i2 == i);
    }
}

/// A target with a build in flight is never dispatched again: at most one
/// build per target is in flight at any time.
pub proof fn law_at_most_one_in_flight(
    g: Seq<TargetSpec>,
    built: Seq<Seq<char>>,
    building: Seq<Seq<char>>,
    changed: Seq<Seq<char>>,
    dispatched: Seq<Seq<char>>,
)
    requires
        crate::graph::spec_unique_names(g),
        forall|x: Seq<char>|
            dispatched.contains(x) ==> exists|i: int|
                0 <= i < g.len() && (#[trigger] g[i]).name == x && spec_eligible(
                    g[i],
                    built,
                    building,
                    changed,
                ),
    ensures
        forall|x: Seq<char>| dispatched.contains(x) ==> !building.contains(x),
{
    assert forall|x: Seq<char>| dispatched.contains(x) implies !building.contains(x) by {
        let i = choose|i: int|
            0 <= i < g.len() && (#[trigger] g[i]).name == x && spec_eligible(
                g[i],
                built,
                building,
                changed,
            );
    }
}

/// A non-incremental target that is already built never becomes eligible
/// again, changed or not.
pub proof fn law_non_incremental_never_rebuilt(
    t: TargetSpec,
    built: Seq<Seq<char>>,
    building: Seq<Seq<char>>,
    changed: Seq<Seq<char>>,
)
    requires
        built.contains(t.name),
        !t.incremental,
    ensures
        !spec_eligible(t, built, building, changed),
{
}

} // verus!
