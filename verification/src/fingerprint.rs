//! Content fingerprints: a hex digest per file, keyed by path.
//!
//! Comparison is order-independent map equality, so a record read back in a
//! different order still matches.

use vstd::prelude::*;
use crypto::digest::Digest;

verus! {

/// Hex digest that the hashing primitive assigns to a byte string; the
/// result is a function of the bytes alone.
pub uninterp spec fn spec_digest(bytes: Seq<u8>) -> Seq<char>;

/// Relies on crypto's Sha1 through its Digest trait: feeding `bytes` into a
/// fresh hasher and reading `result_str` yields the hex digest, a function
/// of the bytes alone.
#[verifier::external_body]
fn sha1_hex(bytes: &Vec<u8>) -> (r: String)
    ensures
        r@ == spec_digest(bytes@),
{
    let mut hasher = crypto::sha1::Sha1::new();
    hasher.input(bytes.as_slice());
    hasher.result_str()
}

/// String equality, stated over the character views.
fn string_eq(a: &String, b: &String) -> (r: bool)
    ensures
        r == (a@ == b@),
{
    *a == *b
}

/// Fingerprints of a set of files: for each path, the digest of its
/// contents.  Paths are unique, so the value is a map.
pub struct Fingerprints {
    entries: Vec<(String, String)>,
}

/// The map that an association list of path/digest pairs denotes.
pub open spec fn spec_entries_map(s: Seq<(String, String)>) -> Map<Seq<char>, Seq<char>> {
    Map::new(
        |k: Seq<char>| exists|i: int| 0 <= i < s.len() && s[i].0@ == k,
        |k: Seq<char>|
            {
                let i = choose|i: int| 0 <= i < s.len() && s[i].0@ == k;
                s[i].1@
            },
    )
}

/// With pairwise distinct paths, the denoted map has one key per entry.
proof fn lemma_entries_dom_len(s: Seq<(String, String)>)
    requires
        forall|i: int, j: int| 0 <= i < j < s.len() ==> s[i].0@ != s[j].0@,
    ensures
        spec_entries_map(s).dom().len() == s.len(),
        spec_entries_map(s).dom().finite(),
    decreases s.len(),
{
    broadcast use vstd::set::group_set_axioms;

    if s.len() == 0 {
        assert(spec_entries_map(s).dom() =~= Set::empty());
    } else {
        let prefix = s.drop_last();
        lemma_entries_dom_len(prefix);
        let n = s.len() - 1;
        assert forall|k: Seq<char>| true implies #[trigger] spec_entries_map(s).dom().contains(k)
            == spec_entries_map(prefix).dom().insert(s[n].0@).contains(k) by {
            if k != s[n].0@ {
                assert forall|w: int| 0 <= w < s.len() && s[w].0@ == k implies w < n
                    && prefix[w].0@ == k by {
                    assert(prefix[w] == s[w]);
                }
                assert forall|w: int|
                    0 <= w < prefix.len() && prefix[w].0@ == k implies s[w].0@ == k by {
                    assert(prefix[w] == s[w]);
                }
            }
        }
        assert(spec_entries_map(s).dom() =~= spec_entries_map(prefix).dom().insert(s[n].0@));
        assert(!spec_entries_map(prefix).dom().contains(s[n].0@)) by {
            if spec_entries_map(prefix).dom().contains(s[n].0@) {
                let w = choose|w: int| 0 <= w < prefix.len() && prefix[w].0@ == s[n].0@;
                assert(s[w] == prefix[w]);
            }
        }
    }
}

impl View for Fingerprints {
    type V = Map<Seq<char>, Seq<char>>;

    closed spec fn view(&self) -> Map<Seq<char>, Seq<char>> {
        spec_entries_map(self.entries@)
    }
}

impl Fingerprints {
    /// Paths are pairwise distinct.
    pub closed spec fn wf(&self) -> bool {
        forall|i: int, j: int|
            0 <= i < j < self.entries@.len() ==> self.entries@[i].0@ != self.entries@[j].0@
    }

    /// An empty fingerprint set.
    pub fn new() -> (r: Fingerprints)
        ensures
            r.wf(),
            r@ == Map::<Seq<char>, Seq<char>>::empty(),
    {
        let r = Fingerprints { entries: Vec::new() };
        proof {
            assert(r@ =~= Map::<Seq<char>, Seq<char>>::empty());
        }
        r
    }

    /// Number of recorded files.
    pub fn len(&self) -> (r: usize)
        requires
            self.wf(),
        ensures
            r == self@.dom().len(),
    {
        proof {
            lemma_entries_dom_len(self.entries@);
        }
        self.entries.len()
    }

    /// The recorded digest for `path`, if any.
    pub fn get(&self, path: &String) -> (r: Option<&String>)
        requires
            self.wf(),
        ensures
            match r {
                Some(d) => self@.contains_key(path@) && self@[path@] == d@,
                None => !self@.contains_key(path@),
            },
    {
        let mut i: usize = 0;
        while i < self.entries.len()
            invariant
                self.wf(),
                i <= self.entries.len(),
                forall|j: int| 0 <= j < i ==> self.entries@[j].0@ != path@,
            decreases self.entries.len() - i,
        {
            if string_eq(&self.entries[i].0, path) {
                proof {
                    let w = choose|w: int|
                        0 <= w < self.entries@.len() && self.entries@[w].0@ == path@;
                    assert(w == i as int);
                }
                return Some(&self.entries[i].1);
            }
            i += 1;
        }
        None
    }

    /// Record `digest` for `path`; a previous digest for the same path is
    /// replaced.
    pub fn insert(&mut self, path: &String, digest: &String)
        requires
            old(self).wf(),
        ensures
            final(self).wf(),
            final(self)@ == old(self)@.insert(path@, digest@),
    {
        let ghost pk = path@;
        let ghost dv = digest@;
        let ghost old_entries = self.entries@;
        let pos = self.find_pos(path);
        match pos {
            Some(i) => {
                proof {
                    assert(self.entries@[i as int].0@ == pk);
                }
                self.entries.set(i, (path.clone(), digest.clone()));
                proof {
                    let se = self.entries@;
                    assert forall|a: int, b: int|
                        0 <= a < b < se.len() implies se[a].0@ != se[b].0@ by {
                        if a != i as int && b != i as int {
                            assert(se[a] == old_entries[a] && se[b] == old_entries[b]);
                        }
                    }
                    assert forall|k: Seq<char>| true implies #[trigger] self@.dom().contains(k)
                        == old(self)@.insert(pk, dv).dom().contains(k) by {
                        if k == pk {
                            assert(0 <= i < se.len() && se[i as int].0@ == k);
                        } else {
                            assert forall|w: int|
                                0 <= w < se.len() implies (se[w].0@ == k <==> old_entries[w].0@
                                    == k) by {
                                if w != i as int {
                                    assert(se[w] == old_entries[w]);
                                }
                            }
                            assert(old_entries[i as int].0@ == pk);
                        }
                    }
                    assert forall|k: Seq<char>| self@.dom().contains(k) implies self@[k] == old(
                        self,
                    )@.insert(pk, dv)[k] by {
                        let w = choose|w: int| 0 <= w < se.len() && se[w].0@ == k;
                        if k == pk {
                            assert(w == i as int);
                        } else {
                            assert(w != i as int);
                            assert(se[w] == old_entries[w]);
                            let w0 = choose|w0: int|
                                0 <= w0 < old_entries.len() && old_entries[w0].0@ == k;
                            assert(w0 == w);
                        }
                    }
                    assert(self@ =~= old(self)@.insert(pk, dv));
                }
            },
            None => {
                self.entries.push((path.clone(), digest.clone()));
                proof {
                    let se = self.entries@;
                    let n = se.len() - 1;
                    assert(se[n].0@ == pk && se[n].1@ == dv);
                    assert forall|a: int, b: int|
                        0 <= a < b < se.len() implies se[a].0@ != se[b].0@ by {
                        assert(se[a] == old_entries[a]);
                        if b < n {
                            assert(se[b] == old_entries[b]);
                        }
                    }
                    assert forall|k: Seq<char>| true implies #[trigger] self@.dom().contains(k)
                        == old(self)@.insert(pk, dv).dom().contains(k) by {
                        if k != pk {
                            assert forall|w: int|
                                0 <= w < se.len() implies (se[w].0@ == k ==> w < n
                                    && old_entries[w].0@ == k) by {
                                if w < n {
                                    assert(se[w] == old_entries[w]);
                                }
                            }
                            assert forall|w: int|
                                0 <= w < old_entries.len() && old_entries[w].0@ == k implies se[
                                w
                            ].0@ == k by {
                                assert(se[w] == old_entries[w]);
                            }
                        }
                    }
                    assert forall|k: Seq<char>| self@.dom().contains(k) implies self@[k] == old(
                        self,
                    )@.insert(pk, dv)[k] by {
                        let w = choose|w: int| 0 <= w < se.len() && se[w].0@ == k;
                        if k == pk {
                            assert(w == n);
                        } else {
                            assert(w < n);
                            assert(se[w] == old_entries[w]);
                            let w0 = choose|w0: int|
                                0 <= w0 < old_entries.len() && old_entries[w0].0@ == k;
                            assert(se[w0] == old_entries[w0]);
                            assert(w0 == w);
                        }
                    }
                    assert(self@ =~= old(self)@.insert(pk, dv));
                }
            },
        }
    }

    /// Position of `path` among the entries, if recorded.
    fn find_pos(&self, path: &String) -> (r: Option<usize>)
        requires
            self.wf(),
        ensures
            match r {
                Some(i) => i < self.entries@.len() && self.entries@[i as int].0@ == path@,
                None => forall|j: int| 0 <= j < self.entries@.len() ==> self.entries@[j].0@
                    != path@,
            },
    {
        let mut i: usize = 0;
        while i < self.entries.len()
            invariant
                i <= self.entries.len(),
                forall|j: int| 0 <= j < i ==> self.entries@[j].0@ != path@,
            decreases self.entries.len() - i,
        {
            if string_eq(&self.entries[i].0, path) {
                return Some(i);
            }
            i += 1;
        }
        None
    }

    /// The recorded pairs, path by path, for callers that must write the
    /// set out.
    pub fn to_entries(&self) -> (r: Vec<(String, String)>)
        requires
            self.wf(),
        ensures
            forall|i: int, j: int| 0 <= i < j < r@.len() ==> r@[i].0@ != r@[j].0@,
            forall|i: int|
                0 <= i < r@.len() ==> self@.contains_key((#[trigger] r@[i]).0@) && self@[r@[i].0@]
                    == r@[i].1@,
            forall|k: Seq<char>|
                self@.contains_key(k) ==> exists|i: int| 0 <= i < r@.len() && (#[trigger] r@[i]).0@
                    == k,
    {
        let mut r: Vec<(String, String)> = Vec::new();
        let mut i: usize = 0;
        while i < self.entries.len()
            invariant
                self.wf(),
                i <= self.entries.len(),
                r@.len() == i,
                forall|j: int|
                    0 <= j < i ==> (#[trigger] r@[j]).0@ == self.entries@[j].0@ && r@[j].1@
                        == self.entries@[j].1@,
            decreases self.entries.len() - i,
        {
            let p = self.entries[i].0.clone();
            let d = self.entries[i].1.clone();
            r.push((p, d));
            i += 1;
        }
        proof {
            assert forall|i2: int|
                0 <= i2 < r@.len() implies self@.contains_key((#[trigger] r@[i2]).0@)
                && self@[r@[i2].0@] == r@[i2].1@ by {
                assert(self.entries@[i2].0@ == r@[i2].0@);
                let w = choose|w: int|
                    0 <= w < self.entries@.len() && self.entries@[w].0@ == r@[i2].0@;
                assert(w == i2);
            }
            assert forall|k: Seq<char>| self@.contains_key(k) implies exists|i2: int|
                0 <= i2 < r@.len() && (#[trigger] r@[i2]).0@ == k by {
                let w = choose|w: int|
                    0 <= w < self.entries@.len() && self.entries@[w].0@ == k;
                assert(r@[w].0@ == k);
            }
        }
        r
    }

    /// Compares two fingerprint sets as maps: the same paths with the same
    /// digests, in any order.
    pub fn eq_map(&self, other: &Fingerprints) -> (r: bool)
        requires
            self.wf(),
            other.wf(),
        ensures
            r == (self@ == other@),
    {
        let mut i: usize = 0;
        while i < self.entries.len()
            invariant
                self.wf(),
                other.wf(),
                i <= self.entries.len(),
                forall|j: int|
                    0 <= j < i ==> other@.contains_key(#[trigger] self.entries@[j].0@)
                        && other@[self.entries@[j].0@] == self.entries@[j].1@,
            decreases self.entries.len() - i,
        {
            let key = &self.entries[i].0;
            match other.get(key) {
                Some(d) => {
                    if !string_eq(&self.entries[i].1, d) {
                        proof {
                            assert(self@.contains_key(key@));
                            assert(self@[key@] == self.entries@[i as int].1@);
                            assert(self@[key@] != other@[key@]);
                        }
                        return false;
                    }
                },
                None => {
                    proof {
                        assert(self@.contains_key(key@));
                        assert(!other@.contains_key(key@));
                    }
                    return false;
                },
            }
            i += 1;
        }
        let mut j: usize = 0;
        while j < other.entries.len()
            invariant
                self.wf(),
                other.wf(),
                j <= other.entries.len(),
                forall|j2: int|
                    0 <= j2 < self.entries@.len() ==> other@.contains_key(
                        #[trigger] self.entries@[j2].0@,
                    ) && other@[self.entries@[j2].0@] == self.entries@[j2].1@,
                forall|j2: int| 0 <= j2 < j ==> self@.contains_key(#[trigger] other.entries@[j2].0@),
            decreases other.entries.len() - j,
        {
            let key = &other.entries[j].0;
            if self.get(key).is_none() {
                proof {
                    assert(other@.contains_key(key@));
                    assert(!self@.contains_key(key@));
                }
                return false;
            }
            j += 1;
        }
        proof {
            assert forall|k: Seq<char>| true implies #[trigger] self@.dom().contains(k)
                == other@.dom().contains(k) by {
                if self@.dom().contains(k) {
                    let w = choose|w: int|
                        0 <= w < self.entries@.len() && self.entries@[w].0@ == k;
                    assert(other@.contains_key(self.entries@[w].0@));
                }
                if other@.dom().contains(k) {
                    let w = choose|w: int|
                        0 <= w < other.entries@.len() && other.entries@[w].0@ == k;
                    assert(self@.contains_key(other.entries@[w].0@));
                }
            }
            assert forall|k: Seq<char>| self@.dom().contains(k) implies self@[k] == other@[k] by {
                let w = choose|w: int| 0 <= w < self.entries@.len() && self.entries@[w].0@ == k;
                assert(other@.contains_key(self.entries@[w].0@) && other@[self.entries@[w].0@]
                    == self.entries@[w].1@);
                assert(self@[k] == self.entries@[w].1@);
            }
            assert(self@ =~= other@);
        }
        true
    }
}

/// Fingerprints the given file contents: for every `(path, bytes)` pair the
/// digest of `bytes` is recorded under `path`.
pub fn compute_fingerprints(files: &Vec<(String, Vec<u8>)>) -> (r: Fingerprints)
    requires
        forall|i: int, j: int| 0 <= i < j < files@.len() ==> files@[i].0@ != files@[j].0@,
    ensures
        r.wf(),
        forall|i: int|
            0 <= i < files@.len() ==> r@.contains_key(#[trigger] files@[i].0@)
                && r@[files@[i].0@] == spec_digest(files@[i].1@),
        forall|k: Seq<char>|
            r@.contains_key(k) ==> exists|i: int| 0 <= i < files@.len() && files@[i].0@ == k,
{
    let mut r = Fingerprints::new();
    let mut i: usize = 0;
    while i < files.len()
        invariant
            forall|a: int, b: int| 0 <= a < b < files@.len() ==> files@[a].0@ != files@[b].0@,
            i <= files.len(),
            r.wf(),
            forall|j: int|
                0 <= j < i ==> r@.contains_key(#[trigger] files@[j].0@) && r@[files@[j].0@]
                    == spec_digest(files@[j].1@),
            forall|k: Seq<char>|
                r@.contains_key(k) ==> exists|j: int| 0 <= j < i && files@[j].0@ == k,
        decreases files.len() - i,
    {
        let p = files[i].0.clone();
        let d = sha1_hex(&files[i].1);
        proof {
            assert(p@ == files@[i as int].0@);
            assert(d@ == spec_digest(files@[i as int].1@));
        }
        r.insert(&p, &d);
        i += 1;
    }
    r
}

} // verus!
