//! The target data model: a named unit of work, immutable after load.

use vstd::prelude::*;

verus! {

/// Mathematical image of a [`Target`]: every string is a sequence of
/// characters, every list a sequence.
pub struct TargetSpec {
    pub name: Seq<char>,
    pub depends_on: Seq<Seq<char>>,
    pub watch_list: Seq<Seq<char>>,
    pub build_list: Seq<Seq<char>>,
    pub run_list: Seq<Seq<char>>,
    pub input_paths: Seq<Seq<char>>,
    pub output_paths: Seq<Seq<char>>,
    pub incremental: bool,
}

/// A named unit of work: the targets it depends on, the path prefixes it
/// watches for changes, its ordered build commands, its ordered long-running
/// run commands, the input and output paths covered by fingerprinting, and
/// whether a previously built target may be skipped when unchanged.
pub struct Target {
    pub name: String,
    pub depends_on: Vec<String>,
    pub watch_list: Vec<String>,
    pub build_list: Vec<String>,
    pub run_list: Vec<String>,
    pub input_paths: Vec<String>,
    pub output_paths: Vec<String>,
    pub incremental: bool,
}

impl View for Target {
    type V = TargetSpec;

    open spec fn view(&self) -> TargetSpec {
        TargetSpec {
            name: self.name@,
            depends_on: self.depends_on.deep_view(),
            watch_list: self.watch_list.deep_view(),
            build_list: self.build_list.deep_view(),
            run_list: self.run_list.deep_view(),
            input_paths: self.input_paths.deep_view(),
            output_paths: self.output_paths.deep_view(),
            incremental: self.incremental,
        }
    }
}

impl DeepView for Target {
    type V = TargetSpec;

    open spec fn deep_view(&self) -> TargetSpec {
        self.view()
    }
}

impl Clone for Target {
    fn clone(&self) -> (r: Target)
        ensures
            r@ == self@,
    {
        let r = Target {
            name: self.name.clone(),
            depends_on: clone_strings(&self.depends_on),
            watch_list: clone_strings(&self.watch_list),
            build_list: clone_strings(&self.build_list),
            run_list: clone_strings(&self.run_list),
            input_paths: clone_strings(&self.input_paths),
            output_paths: clone_strings(&self.output_paths),
            incremental: self.incremental,
        };
        r
    }
}

/// Clones a list of strings, keeping its value exactly.
pub fn clone_strings(v: &Vec<String>) -> (r: Vec<String>)
    ensures
        r.deep_view() == v.deep_view(),
{
    let mut r: Vec<String> = Vec::new();
    let mut i: usize = 0;
    while i < v.len()
        invariant
            i <= v.len(),
            r.len() == i,
            forall|j: int| 0 <= j < i ==> r@[j]@ == #[trigger] v@[j]@,
        decreases v.len() - i,
    {
        let s = v[i].clone();
        r.push(s);
        i += 1;
    }
    proof {
        assert(r.deep_view() =~= v.deep_view());
    }
    r
}

/// True when `names` holds `name` (by string value).
pub open spec fn spec_has_name(names: Seq<Seq<char>>, name: Seq<char>) -> bool {
    names.contains(name)
}

/// Linear scan for a string in a list, the executable mirror of
/// [`spec_has_name`].
pub fn contains_string(names: &Vec<String>, name: &String) -> (r: bool)
    ensures
        r == spec_has_name(names.deep_view(), name@),
{
    let mut i: usize = 0;
    while i < names.len()
        invariant
            i <= names.len(),
            forall|j: int| 0 <= j < i ==> names.deep_view()[j] != name@,
        decreases names.len() - i,
    {
        if names[i] == *name {
            proof {
                assert(names.deep_view()[i as int] == name@);
            }
            return true;
        }
        i += 1;
    }
    false
}

/// No string occurs twice: the list is used as a set.
pub open spec fn spec_distinct(names: Seq<Seq<char>>) -> bool {
    forall|i: int, j: int| 0 <= i < j < names.len() ==> names[i] != names[j]
}

/// Add `name` to the set, a no-op when already present.
pub fn insert_name(names: &mut Vec<String>, name: &String)
    requires
        spec_distinct(old(names).deep_view()),
    ensures
        spec_distinct(final(names).deep_view()),
        forall|x: Seq<char>|
            final(names).deep_view().contains(x) == (old(names).deep_view().contains(x) || x
                == name@),
{
    let ghost old_names = names.deep_view();
    if !contains_string(names, name) {
        names.push(name.clone());
        proof {
            let nv = names.deep_view();
            let n = nv.len() - 1;
            assert forall|j: int| 0 <= j < nv.len() implies #[trigger] nv[j] == (if j < n {
                old_names[j]
            } else {
                name@
            }) by {
                assert(nv[j] == names@[j]@);
                if j < n {
                    assert(names@[j] == old(names)@[j]);
                }
            }
            assert forall|a: int, b: int| 0 <= a < b < nv.len() implies nv[a] != nv[b] by {
                if b < n {
                } else {
                    if old_names.contains(nv[a]) {
                    }
                }
            }
            assert forall|x: Seq<char>|
                nv.contains(x) == (old_names.contains(x) || x == name@) by {
                if nv.contains(x) {
                    let w = choose|w: int| 0 <= w < nv.len() && nv[w] == x;
                    if w < n {
                        assert(old_names[w] == x);
                    }
                }
                if old_names.contains(x) {
                    let w = choose|w: int| 0 <= w < old_names.len() && old_names[w] == x;
                    assert(nv[w] == x);
                }
                if x == name@ {
                    assert(nv[n] == x);
                }
            }
        }
    } else {
        proof {
            assert forall|x: Seq<char>|
                names.deep_view().contains(x) == (old_names.contains(x) || x == name@) by {}
        }
    }
}

/// Remove `name` from the set, a no-op when absent.
pub fn remove_name(names: &mut Vec<String>, name: &String)
    requires
        spec_distinct(old(names).deep_view()),
    ensures
        spec_distinct(final(names).deep_view()),
        forall|x: Seq<char>|
            final(names).deep_view().contains(x) == (old(names).deep_view().contains(x) && x
                != name@),
{
    let ghost old_names = names.deep_view();
    let mut i: usize = 0;
    while i < names.len()
        invariant
            spec_distinct(names.deep_view()),
            names.deep_view() == old_names,
            old_names == old(names).deep_view(),
            i <= names.len(),
            forall|j: int| 0 <= j < i ==> old_names[j] != name@,
        decreases names.len() - i,
    {
        if names[i] == *name {
            proof {
                assert(old_names[i as int] == name@);
            }
            names.remove(i);
            proof {
                let nv = names.deep_view();
                assert forall|j: int| 0 <= j < nv.len() implies #[trigger] nv[j] == (if j < i {
                    old_names[j]
                } else {
                    old_names[j + 1]
                }) by {
                    assert(nv[j] == names@[j]@);
                }
                assert forall|a: int, b: int| 0 <= a < b < nv.len() implies nv[a] != nv[b] by {
                    let a0: int = if a < i as int { a } else { a + 1 };
                    let b0: int = if b < i as int { b } else { b + 1 };
                    assert(nv[a] == old_names[a0] && nv[b] == old_names[b0]);
                }
                assert forall|x: Seq<char>|
                    nv.contains(x) == (old_names.contains(x) && x != name@) by {
                    if nv.contains(x) {
                        let w = choose|w: int| 0 <= w < nv.len() && nv[w] == x;
                        let w0: int = if w < i as int { w } else { w + 1 };
                        assert(old_names[w0] == x);
                        assert(w0 != i as int);
                    }
                    if old_names.contains(x) && x != name@ {
                        let w0 = choose|w0: int| 0 <= w0 < old_names.len() && old_names[w0] == x;
                        assert(w0 != i as int);
                        let w: int = if w0 < i as int { w0 } else { w0 - 1 };
                        assert(nv[w] == x);
                    }
                }
            }
            return ;
        }
        i += 1;
    }
    proof {
        assert forall|x: Seq<char>|
            names.deep_view().contains(x) == (old_names.contains(x) && x != name@) by {
            if old_names.contains(x) {
                let w = choose|w: int| 0 <= w < old_names.len() && old_names[w] == x;
            }
        }
    }
}

} // verus!
