//! The incremental execution engine: per target, a persisted record of
//! input and output fingerprints as of the last successful execution
//! decides whether the work can be skipped.
//!
//! The runner tracks the record set; reading and writing the record files
//! themselves is the caller's concern, mirrored from this state.

use vstd::prelude::*;
use vstd::string::StringExecFns;
use crate::domain::Target;
use crate::fingerprint::Fingerprints;

verus! {

/// Mathematical image of a [`TargetChecksums`] record.
pub struct ChecksumsSpec {
    pub inputs: Map<Seq<char>, Seq<char>>,
    pub outputs: Map<Seq<char>, Seq<char>>,
}

/// Fingerprints of a target's declared input and output files as of its
/// last successful execution.
pub struct TargetChecksums {
    pub inputs: Fingerprints,
    pub outputs: Fingerprints,
}

impl View for TargetChecksums {
    type V = ChecksumsSpec;

    open spec fn view(&self) -> ChecksumsSpec {
        ChecksumsSpec { inputs: self.inputs@, outputs: self.outputs@ }
    }
}

impl TargetChecksums {
    /// Both fingerprint sets are well formed.
    pub open spec fn wf(&self) -> bool {
        self.inputs.wf() && self.outputs.wf()
    }

    /// Order-independent comparison with another record: the same paths
    /// with the same digests on both sides.
    pub fn eq_fs_checksum(&self, current: &TargetChecksums) -> (r: bool)
        requires
            self.wf(),
            current.wf(),
        ensures
            r == (self@.inputs == current@.inputs && self@.outputs == current@.outputs),
    {
        self.inputs.eq_map(&current.inputs) && self.outputs.eq_map(&current.outputs)
    }
}

/// Builds the record for a target, or nothing when the target declares no
/// input or output paths: such a target never has a persisted record and is
/// re-executed every time.
pub fn compute_target_checksums(target: &Target, inputs: Fingerprints, outputs: Fingerprints) -> (r:
    Option<TargetChecksums>)
    requires
        inputs.wf(),
        outputs.wf(),
    ensures
        (r is Some) == (target@.input_paths.len() + target@.output_paths.len() > 0),
        match r {
            Some(tc) => tc.wf() && tc@.inputs == inputs@ && tc@.outputs == outputs@,
            None => true,
        },
{
    if target.input_paths.len() == 0 && target.output_paths.len() == 0 {
        None
    } else {
        Some(TargetChecksums { inputs, outputs })
    }
}

/// The result of an incremental run: the work was skipped because nothing
/// changed, or it ran and produced `T`.
#[derive(PartialEq)]
pub enum IncrementalRunResult<T> {
    Skipped,
    Run(T),
}

/// Mathematical image of an [`IncrementalRunner`].
pub struct RunnerSpec {
    pub checksum_dir: Seq<char>,
    pub records: Map<Seq<char>, ChecksumsSpec>,
}

/// The record store: per target name, the checksums of its last successful
/// execution, kept under a directory chosen at construction.
pub struct IncrementalRunner {
    checksum_dir: String,
    records: Vec<(String, TargetChecksums)>,
}

/// The map that the record association list denotes.
pub open spec fn spec_records_map(s: Seq<(String, TargetChecksums)>) -> Map<
    Seq<char>,
    ChecksumsSpec,
> {
    Map::new(
        |k: Seq<char>| exists|i: int| 0 <= i < s.len() && s[i].0@ == k,
        |k: Seq<char>|
            {
                let i = choose|i: int| 0 <= i < s.len() && s[i].0@ == k;
                s[i].1@
            },
    )
}

impl View for IncrementalRunner {
    type V = RunnerSpec;

    closed spec fn view(&self) -> RunnerSpec {
        RunnerSpec {
            checksum_dir: self.checksum_dir@,
            records: spec_records_map(self.records@),
        }
    }
}

impl IncrementalRunner {
    /// Names are pairwise distinct and every stored record is well formed.
    pub closed spec fn wf(&self) -> bool {
        &&& forall|i: int, j: int|
            0 <= i < j < self.records@.len() ==> self.records@[i].0@ != self.records@[j].0@
        &&& forall|i: int| 0 <= i < self.records@.len() ==> (#[trigger] self.records@[i].1).wf()
    }

    /// A fresh runner over `checksum_dir` with no records.
    pub fn new(checksum_dir: String) -> (r: IncrementalRunner)
        ensures
            r.wf(),
            r@.checksum_dir == checksum_dir@,
            r@.records == Map::<Seq<char>, ChecksumsSpec>::empty(),
    {
        let r = IncrementalRunner { checksum_dir, records: Vec::new() };
        proof {
            assert(r@.records =~= Map::<Seq<char>, ChecksumsSpec>::empty());
        }
        r
    }

    /// The file that holds the record of `target`, inside the store
    /// directory.
    pub fn get_checksum_file_path(&self, target: &Target) -> (r: String)
        ensures
            r@ == self@.checksum_dir + "/"@ + target@.name + ".checksum"@,
    {
        let mut r = self.checksum_dir.clone();
        r.append("/");
        r.append(target.name.as_str());
        r.append(".checksum");
        r
    }

    /// Position of `name` among the records, if present.
    fn find_pos(&self, name: &String) -> (r: Option<usize>)
        ensures
            match r {
                Some(i) => i < self.records@.len() && self.records@[i as int].0@ == name@,
                None => forall|j: int|
                    0 <= j < self.records@.len() ==> self.records@[j].0@ != name@,
            },
    {
        let mut i: usize = 0;
        while i < self.records.len()
            invariant
                i <= self.records.len(),
                forall|j: int| 0 <= j < i ==> self.records@[j].0@ != name@,
            decreases self.records.len() - i,
        {
            if self.records[i].0 == *name {
                return Some(i);
            }
            i += 1;
        }
        None
    }

    /// The stored record for `name`, if any.
    pub fn get_record(&self, name: &String) -> (r: Option<&TargetChecksums>)
        requires
            self.wf(),
        ensures
            match r {
                Some(tc) => self@.records.contains_key(name@) && self@.records[name@] == tc@
                    && tc.wf(),
                None => !self@.records.contains_key(name@),
            },
    {
        match self.find_pos(name) {
            Some(i) => {
                proof {
                    let w = choose|w: int|
                        0 <= w < self.records@.len() && self.records@[w].0@ == name@;
                    assert(w == i as int);
                }
                Some(&self.records[i].1)
            },
            None => None,
        }
    }

    /// Store `record` under `name`, replacing any previous record.
    pub fn restore_record(&mut self, name: &String, record: TargetChecksums)
        requires
            old(self).wf(),
            record.wf(),
        ensures
            final(self).wf(),
            final(self)@.checksum_dir == old(self)@.checksum_dir,
            final(self)@.records == old(self)@.records.insert(name@, record@),
    {
        let ghost pk = name@;
        let ghost rv = record@;
        let ghost old_records = self.records@;
        let pos = self.find_pos(name);
        match pos {
            Some(i) => {
                proof {
                    assert(self.records@[i as int].0@ == pk);
                }
                self.records.set(i, (name.clone(), record));
                proof {
                    let se = self.records@;
                    assert(se[i as int].0@ == pk && se[i as int].1@ == rv);
                    assert forall|a: int, b: int|
                        0 <= a < b < se.len() implies se[a].0@ != se[b].0@ by {
                        if a != i as int && b != i as int {
                            assert(se[a] == old_records[a] && se[b] == old_records[b]);
                        }
                    }
                    assert forall|a: int|
                        0 <= a < se.len() implies (#[trigger] se[a].1).wf() by {
                        if a != i as int {
                            assert(se[a] == old_records[a]);
                        }
                    }
                    assert forall|k: Seq<char>| true implies #[trigger] self@.records.dom().contains(
                        k,
                    ) == old(self)@.records.insert(pk, rv).dom().contains(k) by {
                        if k == pk {
                            assert(0 <= i < se.len() && se[i as int].0@ == k);
                        } else {
                            assert forall|w: int|
                                0 <= w < se.len() implies (se[w].0@ == k <==> old_records[w].0@
                                    == k) by {
                                if w != i as int {
                                    assert(se[w] == old_records[w]);
                                }
                            }
                            assert(old_records[i as int].0@ == pk);
                        }
                    }
                    assert forall|k: Seq<char>|
                        self@.records.dom().contains(k) implies self@.records[k] == old(
                        self,
                    )@.records.insert(pk, rv)[k] by {
                        let w = choose|w: int| 0 <= w < se.len() && se[w].0@ == k;
                        if k == pk {
                            assert(w == i as int);
                        } else {
                            assert(w != i as int);
                            assert(se[w] == old_records[w]);
                            let w0 = choose|w0: int|
                                0 <= w0 < old_records.len() && old_records[w0].0@ == k;
                            assert(w0 == w);
                        }
                    }
                    assert(self@.records =~= old(self)@.records.insert(pk, rv));
                }
            },
            None => {
                self.records.push((name.clone(), record));
                proof {
                    let se = self.records@;
                    let n = se.len() - 1;
                    assert(se[n].0@ == pk && se[n].1@ == rv);
                    assert forall|a: int, b: int|
                        0 <= a < b < se.len() implies se[a].0@ != se[b].0@ by {
                        assert(se[a] == old_records[a]);
                        if b < n {
                            assert(se[b] == old_records[b]);
                        }
                    }
                    assert forall|a: int|
                        0 <= a < se.len() implies (#[trigger] se[a].1).wf() by {
                        if a < n {
                            assert(se[a] == old_records[a]);
                        }
                    }
                    assert forall|k: Seq<char>| true implies #[trigger] self@.records.dom().contains(
                        k,
                    ) == old(self)@.records.insert(pk, rv).dom().contains(k) by {
                        if k != pk {
                            assert forall|w: int|
                                0 <= w < se.len() implies (se[w].0@ == k ==> w < n
                                    && old_records[w].0@ == k) by {
                                if w < n {
                                    assert(se[w] == old_records[w]);
                                }
                            }
                            assert forall|w: int|
                                0 <= w < old_records.len() && old_records[w].0@ == k implies se[
                                w
                            ].0@ == k by {
                                assert(se[w] == old_records[w]);
                            }
                        }
                    }
                    assert forall|k: Seq<char>|
                        self@.records.dom().contains(k) implies self@.records[k] == old(
                        self,
                    )@.records.insert(pk, rv)[k] by {
                        let w = choose|w: int| 0 <= w < se.len() && se[w].0@ == k;
                        if k == pk {
                            assert(w == n);
                        } else {
                            assert(w < n);
                            assert(se[w] == old_records[w]);
                            let w0 = choose|w0: int|
                                0 <= w0 < old_records.len() && old_records[w0].0@ == k;
                            assert(se[w0] == old_records[w0]);
                            assert(w0 == w);
                        }
                    }
                    assert(self@.records =~= old(self)@.records.insert(pk, rv));
                }
            },
        }
    }

    /// Delete the record of `name`, if present.  Deletion happens before a
    /// new execution attempt, so no stale success record can survive one.
    pub fn remove_record(&mut self, name: &String)
        requires
            old(self).wf(),
        ensures
            final(self).wf(),
            final(self)@.checksum_dir == old(self)@.checksum_dir,
            final(self)@.records == old(self)@.records.remove(name@),
    {
        let ghost pk = name@;
        let ghost old_records = self.records@;
        let pos = self.find_pos(name);
        match pos {
            Some(i) => {
                proof {
                    assert(self.records@[i as int].0@ == pk);
                }
                self.records.remove(i);
                proof {
                    let se = self.records@;
                    assert forall|a: int, b: int|
                        0 <= a < b < se.len() implies se[a].0@ != se[b].0@ by {
                        let a0: int = if a < i as int { a } else { a + 1 };
                        let b0: int = if b < i as int { b } else { b + 1 };
                        assert(se[a] == old_records[a0] && se[b] == old_records[b0]);
                    }
                    assert forall|a: int|
                        0 <= a < se.len() implies (#[trigger] se[a].1).wf() by {
                        let a0: int = if a < i as int { a } else { a + 1 };
                        assert(se[a] == old_records[a0]);
                    }
                    assert forall|k: Seq<char>| true implies #[trigger] self@.records.dom().contains(
                        k,
                    ) == old(self)@.records.remove(pk).dom().contains(k) by {
                        if k == pk {
                            if self@.records.dom().contains(k) {
                                let w = choose|w: int| 0 <= w < se.len() && se[w].0@ == k;
                                let w0: int = if w < i as int { w } else { w + 1 };
                                assert(se[w] == old_records[w0]);
                                assert(old_records[i as int].0@ == pk);
                            }
                        } else {
                            if self@.records.dom().contains(k) {
                                let w = choose|w: int| 0 <= w < se.len() && se[w].0@ == k;
                                let w0: int = if w < i as int { w } else { w + 1 };
                                assert(se[w] == old_records[w0]);
                            }
                            if old(self)@.records.remove(pk).dom().contains(k) {
                                let w0 = choose|w0: int|
                                    0 <= w0 < old_records.len() && old_records[w0].0@ == k;
                                let w: int = if w0 < i as int { w0 } else { w0 - 1 };
                                assert(w0 != i as int);
                                assert(se[w] == old_records[w0]);
                            }
                        }
                    }
                    assert forall|k: Seq<char>|
                        self@.records.dom().contains(k) implies self@.records[k] == old(
                        self,
                    )@.records.remove(pk)[k] by {
                        let w = choose|w: int| 0 <= w < se.len() && se[w].0@ == k;
                        let w0: int = if w < i as int { w } else { w + 1 };
                        assert(se[w] == old_records[w0]);
                        let wx = choose|wx: int|
                            0 <= wx < old_records.len() && old_records[wx].0@ == k;
                        assert(wx == w0);
                    }
                    assert(self@.records =~= old(self)@.records.remove(pk));
                }
            },
            None => {
                proof {
                    assert forall|k: Seq<char>| true implies #[trigger] self@.records.dom().contains(
                        k,
                    ) == old(self)@.records.remove(pk).dom().contains(k) by {
                        if k == pk {
                            if self@.records.dom().contains(k) {
                                let w = choose|w: int|
                                    0 <= w < self.records@.len() && self.records@[w].0@ == k;
                            }
                        }
                    }
                    assert(self@.records =~= old(self)@.records.remove(pk));
                }
            },
        }
    }

    /// Did the target's files stay exactly as its stored record says?  True
    /// only when a record exists and both fingerprint sets match the
    /// current state.
    pub fn files_have_not_changed_since_last_successful_execution(
        &self,
        target: &Target,
        current: &TargetChecksums,
    ) -> (r: bool)
        requires
            self.wf(),
            current.wf(),
        ensures
            r == spec_record_matches(self@.records, target@.name, current@),
    {
        match self.get_record(&target.name) {
            Some(saved) => saved.eq_fs_checksum(current),
            None => false,
        }
    }

    /// The skip-or-run decision around one execution attempt.
    ///
    /// When the stored record matches `current` (the fingerprints of the
    /// target's declared paths right now), the work is skipped and nothing
    /// changes.  Otherwise the record is deleted first — a failed or
    /// interrupted attempt leaves no stale success record — and `function`
    /// runs; it returns its result together with fresh fingerprints of the
    /// target's input and output paths.  On success of a target that
    /// declares paths, those fingerprints become the new record; in every
    /// other case the target keeps no record.
    pub fn run<T, F: FnOnce() -> (Result<T, String>, Fingerprints, Fingerprints)>(
        &mut self,
        target: &Target,
        current: &TargetChecksums,
        function: F,
    ) -> (r: IncrementalRunResult<Result<T, String>>)
        requires
            old(self).wf(),
            current.wf(),
            call_requires(function, ()),
            forall|ret: (Result<T, String>, Fingerprints, Fingerprints)|
                call_ensures(function, (), ret) ==> ret.1.wf() && ret.2.wf(),
        ensures
            final(self).wf(),
            final(self)@.checksum_dir == old(self)@.checksum_dir,
            (r is Skipped) == spec_record_matches(old(self)@.records, target@.name, current@),
            r is Skipped ==> final(self)@.records == old(self)@.records,
            match r {
                IncrementalRunResult::Skipped => true,
                IncrementalRunResult::Run(res) => exists|fi: Fingerprints, fo: Fingerprints|
                    {
                        &&& #[trigger] call_ensures(function, (), (res, fi, fo))
                        &&& if res is Ok && target@.input_paths.len() + target@.output_paths.len()
                            > 0 {
                            final(self)@.records == old(self)@.records.insert(
                                target@.name,
                                ChecksumsSpec { inputs: fi@, outputs: fo@ },
                            )
                        } else {
                            final(self)@.records == old(self)@.records.remove(target@.name)
                        }
                    },
            },
    {
        if self.files_have_not_changed_since_last_successful_execution(target, current) {
            return IncrementalRunResult::Skipped;
        }
        self.remove_record(&target.name);
        let (res, in_fp, out_fp) = function();
        let ghost fi = in_fp;
        let ghost fo = out_fp;
        if res.is_ok() {
            match compute_target_checksums(target, in_fp, out_fp) {
                Some(tc) => {
                    self.restore_record(&target.name, tc);
                    proof {
                        assert(self@.records =~= old(self)@.records.insert(
                            target@.name,
                            ChecksumsSpec { inputs: fi@, outputs: fo@ },
                        ));
                    }
                },
                None => {},
            }
        }
        IncrementalRunResult::Run(res)
    }

    /// Clear records: all of them when `targets` is empty, otherwise
    /// exactly those of the named targets.
    pub fn clean_checksums(&mut self, targets: &Vec<Target>)
        requires
            old(self).wf(),
        ensures
            final(self).wf(),
            final(self)@.checksum_dir == old(self)@.checksum_dir,
            targets.len() == 0 ==> final(self)@.records == Map::<Seq<char>, ChecksumsSpec>::empty(),
            targets.len() > 0 ==> forall|k: Seq<char>|
                final(self)@.records.dom().contains(k) == (old(self)@.records.dom().contains(k)
                    && !(exists|i: int|
                    0 <= i < targets@.len() && targets.deep_view()[i].name == k)),
            targets.len() > 0 ==> forall|k: Seq<char>|
                final(self)@.records.dom().contains(k) ==> final(self)@.records[k] == old(
                    self,
                )@.records[k],
    {
        if targets.len() == 0 {
            self.records.clear();
            proof {
                assert(self@.records =~= Map::<Seq<char>, ChecksumsSpec>::empty());
            }
            return ;
        }
        let mut i: usize = 0;
        while i < targets.len()
            invariant
                self.wf(),
                self@.checksum_dir == old(self)@.checksum_dir,
                i <= targets.len(),
                forall|k: Seq<char>|
                    self@.records.dom().contains(k) == (old(self)@.records.dom().contains(k) && !(
                    exists|j: int| 0 <= j < i && targets.deep_view()[j].name == k)),
                forall|k: Seq<char>|
                    self@.records.dom().contains(k) ==> self@.records[k] == old(self)@.records[k],
            decreases targets.len() - i,
        {
            self.remove_record(&targets[i].name);
            proof {
                assert(targets@[i as int]@.name == targets.deep_view()[i as int].name);
                assert forall|k: Seq<char>| true implies #[trigger] self@.records.dom().contains(k)
                    == (old(self)@.records.dom().contains(k) && !(exists|j: int|
                    0 <= j < i + 1 && targets.deep_view()[j].name == k)) by {
                    if k == targets.deep_view()[i as int].name {
                        assert(!self@.records.dom().contains(k));
                    } else {
                        if exists|j: int| 0 <= j < i + 1 && targets.deep_view()[j].name == k {
                            let j = choose|j: int|
                                0 <= j < i + 1 && targets.deep_view()[j].name == k;
                            assert(j < i);
                            assert(exists|j2: int|
                                0 <= j2 < i && targets.deep_view()[j2].name == k);
                        }
                    }
                }
            }
            i += 1;
        }
    }
}

/// The stored record of `name` exists and equals `current` in both maps.
pub open spec fn spec_record_matches(
    records: Map<Seq<char>, ChecksumsSpec>,
    name: Seq<char>,
    current: ChecksumsSpec,
) -> bool {
    &&& records.contains_key(name)
    &&& records[name].inputs == current.inputs
    &&& records[name].outputs == current.outputs
}

/// The conventional store directory and file name for a target's record.
pub fn checksum_file_name(target: &String) -> (r: String)
    ensures
        r@ == ".buildy/"@ + target@ + ".checksum"@,
{
    let mut r = ".buildy/".to_owned();
    r.append(target.as_str());
    r.append(".checksum");
    r
}

} // verus!
