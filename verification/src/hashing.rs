use vstd::prelude::*;

use crate::paths::basename;
use crate::paths::final_component;
use crate::paths::has_basename;
use crate::paths::views_of;

verus! {

/// The 256-bit content digest of a byte sequence, as the outside hash
/// function computes it: a fixed-size summary used to decide whether two
/// files hold identical data.
pub uninterp spec fn blake3_digest(bytes: Seq<u8>) -> Seq<u8>;

/// Relies on blake3::hash: a 32-byte digest computed from the input bytes
/// alone, handed back here as a plain byte vector.
#[verifier::external_body]
fn hash_bytes(content: &Vec<u8>) -> (r: Vec<u8>)
    ensures
        r@ == blake3_digest(content@),
        r@.len() == 32,
{
    blake3::hash(content.as_slice()).as_bytes().to_vec()
}

/// The content hash of one file's bytes.
pub fn content_hash(content: &Vec<u8>) -> (r: Vec<u8>)
    ensures
        r@ == blake3_digest(content@),
        r@.len() == 32,
{
    hash_bytes(content)
}

/// The views of a sequence of byte vectors.
pub open spec fn byte_views_of(cs: Seq<Vec<u8>>) -> Seq<Seq<u8>> {
    cs.map_values(|c: Vec<u8>| c@)
}

/// No two entries share a name.
spec fn entry_keys_distinct(s: Seq<(String, Vec<u8>)>) -> bool {
    forall|i: int, j: int| 0 <= i < j < s.len() ==> (#[trigger] s[i]).0@ != (#[trigger] s[j]).0@
}

/// The mathematical mapping the entry list stands for, later entries
/// overwriting earlier ones.
spec fn entries_map(s: Seq<(String, Vec<u8>)>) -> Map<Seq<char>, Seq<u8>>
    decreases s.len(),
{
    if s.len() == 0 {
        Map::empty()
    } else {
        entries_map(s.drop_last()).insert(s.last().0@, s.last().1@)
    }
}

proof fn lemma_entries_map_contains(s: Seq<(String, Vec<u8>)>, k: Seq<char>)
    ensures
        entries_map(s).contains_key(k) <==> exists|i: int|
            0 <= i < s.len() && (#[trigger] s[i]).0@ == k,
    decreases s.len(),
{
    if s.len() == 0 {
    } else {
        lemma_entries_map_contains(s.drop_last(), k);
        if s.last().0@ == k {
            assert((s[s.len() - 1]).0@ == k);
        } else {
            if entries_map(s).contains_key(k) {
                let i = choose|i: int| 0 <= i < s.drop_last().len() && (#[trigger] s.drop_last()[i]).0@ == k;
                assert((s[i]).0@ == k);
            }
            if exists|i: int| 0 <= i < s.len() && (#[trigger] s[i]).0@ == k {
                let i = choose|i: int| 0 <= i < s.len() && (#[trigger] s[i]).0@ == k;
                assert(i != s.len() - 1);
                assert((s.drop_last()[i]).0@ == k);
            }
        }
    }
}

proof fn lemma_entries_map_index(s: Seq<(String, Vec<u8>)>, i: int)
    requires
        entry_keys_distinct(s),
        0 <= i < s.len(),
    ensures
        entries_map(s).contains_key((s[i]).0@),
        entries_map(s)[(s[i]).0@] == (s[i]).1@,
    decreases s.len(),
{
    if i == s.len() - 1 {
    } else {
        assert(entry_keys_distinct(s.drop_last()));
        lemma_entries_map_index(s.drop_last(), i);
        assert((s[i]).0@ != (s[s.len() - 1]).0@);
    }
}

proof fn lemma_entries_map_remove(s: Seq<(String, Vec<u8>)>, i: int)
    requires
        entry_keys_distinct(s),
        0 <= i < s.len(),
    ensures
        entries_map(s.remove(i)) == entries_map(s).remove((s[i]).0@),
    decreases s.len(),
{
    let k = (s[i]).0@;
    if i == s.len() - 1 {
        assert(s.remove(i) =~= s.drop_last());
        lemma_entries_map_contains(s.drop_last(), k);
        assert(!entries_map(s.drop_last()).contains_key(k));
        assert(entries_map(s.drop_last()).remove(k) =~= entries_map(s.drop_last()));
        assert(entries_map(s).remove(k) =~= entries_map(s.drop_last()).insert(
            s.last().0@,
            s.last().1@,
        ).remove(k));
        assert(entries_map(s.drop_last()).insert(k, s.last().1@).remove(k) =~= entries_map(
            s.drop_last(),
        ).remove(k));
    } else {
        assert(entry_keys_distinct(s.drop_last()));
        lemma_entries_map_remove(s.drop_last(), i);
        assert(s.remove(i).drop_last() =~= s.drop_last().remove(i));
        assert(s.remove(i).last() == s.last());
        assert(entries_map(s.remove(i)) == entries_map(s.drop_last().remove(i)).insert(
            s.last().0@,
            s.last().1@,
        ));
        assert(k != s.last().0@);
        assert(entries_map(s.drop_last()).remove(k).insert(s.last().0@, s.last().1@)
            =~= entries_map(s.drop_last()).insert(s.last().0@, s.last().1@).remove(k));
    }
}

/// The mapping from file name to content digest for one side of a run,
/// keyed by basename. With sources from different directories that share a
/// basename, the later entry overwrites the earlier one: a known sharp edge
/// of basename keying, kept as the tool's documented behaviour.
pub struct HashMapping {
    entries: Vec<(String, Vec<u8>)>,
}

impl View for HashMapping {
    type V = Map<Seq<char>, Seq<u8>>;

    closed spec fn view(&self) -> Map<Seq<char>, Seq<u8>> {
        entries_map(self.entries@)
    }
}

impl HashMapping {
    /// The mapping never holds two entries for one name.
    pub closed spec fn wf(&self) -> bool {
        entry_keys_distinct(self.entries@)
    }

    /// An empty mapping.
    pub fn new() -> (m: HashMapping)
        ensures
            m.wf(),
            m@ == Map::<Seq<char>, Seq<u8>>::empty(),
    {
        HashMapping { entries: Vec::new() }
    }

    /// Record the digest for a name, overwriting any earlier digest
    /// recorded under the same name.
    pub fn insert(&mut self, name: String, digest: Vec<u8>)
        requires
            old(self).wf(),
        ensures
            final(self).wf(),
            final(self)@ == old(self)@.insert(name@, digest@),
    {
        let n = self.entries.len();
        let mut i: usize = 0;
        while i < n
            invariant
                0 <= i <= n,
                n == self.entries@.len(),
                self == old(self),
                old(self).wf(),
                forall|j: int| 0 <= j < i ==> (#[trigger] self.entries@[j]).0@ != name@,
            decreases n - i,
        {
            if self.entries[i].0 == name {
                let ghost s = self.entries@;
                proof {
                    assert(entry_keys_distinct(s));
                    lemma_entries_map_remove(s, i as int);
                }
                self.entries.remove(i);
                proof {
                    assert forall|a: int, b: int|
                        0 <= a < b < self.entries@.len() implies (#[trigger] self.entries@[a]).0@
                        != (#[trigger] self.entries@[b]).0@ by {
                        if b < i {
                            assert(self.entries@[a] == s[a] && self.entries@[b] == s[b]);
                        } else if a < i {
                            assert(self.entries@[a] == s[a] && self.entries@[b] == s[b + 1]);
                        } else {
                            assert(self.entries@[a] == s[a + 1] && self.entries@[b] == s[b + 1]);
                        }
                    }
                    assert forall|j: int| 0 <= j < self.entries@.len() implies (
                    #[trigger] self.entries@[j]).0@ != name@ by {
                        if j < i {
                            assert(self.entries@[j] == s[j]);
                        } else {
                            assert(self.entries@[j] == s[j + 1]);
                        }
                    }
                }
                let ghost t = self.entries@;
                self.entries.push((name, digest));
                proof {
                    assert(self.entries@.drop_last() =~= t);
                    assert(entries_map(self.entries@) == entries_map(t).insert(name@, digest@));
                    assert(entries_map(t).insert(name@, digest@) =~= entries_map(s).insert(
                        name@,
                        digest@,
                    ));
                    assert forall|a: int, b: int|
                        0 <= a < b < self.entries@.len() implies (#[trigger] self.entries@[a]).0@
                        != (#[trigger] self.entries@[b]).0@ by {
                        if b == self.entries@.len() - 1 {
                            assert(self.entries@[a] == t[a]);
                        } else {
                            assert(self.entries@[a] == t[a] && self.entries@[b] == t[b]);
                        }
                    }
                }
                return ;
            }
            i += 1;
        }
        let ghost s = self.entries@;
        proof {
            lemma_entries_map_contains(s, name@);
        }
        self.entries.push((name, digest));
        proof {
            assert(self.entries@.drop_last() =~= s);
            assert(entries_map(self.entries@) == entries_map(s).insert(name@, digest@));
            assert forall|a: int, b: int|
                0 <= a < b < self.entries@.len() implies (#[trigger] self.entries@[a]).0@ != (
            #[trigger] self.entries@[b]).0@ by {
                if b == self.entries@.len() - 1 {
                    assert(self.entries@[a] == s[a]);
                } else {
                    assert(self.entries@[a] == s[a] && self.entries@[b] == s[b]);
                }
            }
        }
    }

    /// Look up the digest recorded for a name.
    pub fn get(&self, name: &String) -> (r: Option<&Vec<u8>>)
        requires
            self.wf(),
        ensures
            r is Some <==> self@.contains_key(name@),
            r is Some ==> r->0@ == self@[name@],
    {
        let n = self.entries.len();
        let mut i: usize = 0;
        while i < n
            invariant
                0 <= i <= n,
                n == self.entries@.len(),
                self.wf(),
                forall|j: int| 0 <= j < i ==> (#[trigger] self.entries@[j]).0@ != name@,
            decreases n - i,
        {
            if self.entries[i].0 == *name {
                proof {
                    lemma_entries_map_index(self.entries@, i as int);
                }
                return Some(&self.entries[i].1);
            }
            i += 1;
        }
        proof {
            lemma_entries_map_contains(self.entries@, name@);
        }
        None
    }

    /// Does every name recorded here also appear in `other`?
    pub fn covered_by(&self, other: &HashMapping) -> (b: bool)
        requires
            self.wf(),
            other.wf(),
        ensures
            b <==> (forall|k: Seq<char>| self@.contains_key(k) ==> other@.contains_key(k)),
    {
        let n = self.entries.len();
        let mut i: usize = 0;
        while i < n
            invariant
                0 <= i <= n,
                n == self.entries@.len(),
                self.wf(),
                other.wf(),
                forall|j: int|
                    0 <= j < i ==> other@.contains_key((#[trigger] self.entries@[j]).0@),
            decreases n - i,
        {
            match other.get(&self.entries[i].0) {
                Some(_) => {},
                None => {
                    proof {
                        lemma_entries_map_index(self.entries@, i as int);
                    }
                    return false;
                },
            }
            i += 1;
        }
        proof {
            assert forall|k: Seq<char>| self@.contains_key(k) implies other@.contains_key(k) by {
                lemma_entries_map_contains(self.entries@, k);
                let j = choose|j: int|
                    0 <= j < self.entries@.len() && (#[trigger] self.entries@[j]).0@ == k;
                assert(other@.contains_key((self.entries@[j]).0@));
            }
        }
        true
    }

    /// The names whose recorded digests differ between this mapping (the
    /// sources) and `dst` (the destinations), each exactly once, in this
    /// mapping's entry order. A source name missing from `dst` cannot arise
    /// from a run's own plan; the precondition leaves that case out.
    pub fn mismatches(&self, dst: &HashMapping) -> (r: Vec<String>)
        requires
            self.wf(),
            dst.wf(),
            forall|k: Seq<char>| self@.contains_key(k) ==> dst@.contains_key(k),
        ensures
            forall|i: int|
                0 <= i < r@.len() ==> self@.contains_key(#[trigger] r@[i]@) && self@[r@[i]@]
                    != dst@[r@[i]@],
            forall|k: Seq<char>|
                self@.contains_key(k) && self@[k] != dst@[k] ==> exists|i: int|
                    0 <= i < r@.len() && (#[trigger] r@[i]@) == k,
            forall|i: int, j: int| 0 <= i < j < r@.len() ==> r@[i]@ != r@[j]@,
            self@ == dst@ ==> r@.len() == 0,
    {
        let n = self.entries.len();
        let mut r: Vec<String> = Vec::new();
        let mut i: usize = 0;
        while i < n
            invariant
                0 <= i <= n,
                n == self.entries@.len(),
                self.wf(),
                dst.wf(),
                forall|k: Seq<char>| self@.contains_key(k) ==> dst@.contains_key(k),
                forall|idx: int|
                    0 <= idx < r@.len() ==> exists|j: int|
                        0 <= j < i && (#[trigger] r@[idx]@) == (self.entries@[j]).0@,
                forall|idx: int|
                    0 <= idx < r@.len() ==> self@.contains_key(#[trigger] r@[idx]@) && self@[r@[idx]@]
                        != dst@[r@[idx]@],
                forall|j: int|
                    0 <= j < i && self@[(#[trigger] self.entries@[j]).0@] != dst@[(self.entries@[j]).0@]
                        ==> exists|idx: int|
                        0 <= idx < r@.len() && (#[trigger] r@[idx]@) == (self.entries@[j]).0@,
                forall|a: int, b: int| 0 <= a < b < r@.len() ==> r@[a]@ != r@[b]@,
            decreases n - i,
        {
            proof {
                lemma_entries_map_index(self.entries@, i as int);
            }
            let ghost k = (self.entries@[i as int]).0@;
            let ghost old_r = r@;
            let name = &self.entries[i].0;
            let src_digest = &self.entries[i].1;
            let dst_digest = match dst.get(name) {
                Some(d) => d,
                None => unreached(),
            };
            if !eq_bytes(src_digest, dst_digest) {
                r.push(name.clone());
                proof {
                    assert(r@[r@.len() - 1]@ == k);
                    assert(self@[k] == (self.entries@[i as int]).1@);
                    assert(self@[k] != dst@[k]);
                    assert forall|a: int, b: int| 0 <= a < b < r@.len() implies r@[a]@ != r@[b]@ by {
                        if b == r@.len() - 1 {
                            let j = choose|j: int|
                                0 <= j < i && (#[trigger] old_r[a]@) == (self.entries@[j]).0@;
                            assert((self.entries@[j]).0@ != (self.entries@[i as int]).0@);
                        } else {
                            assert(r@[a] == old_r[a] && r@[b] == old_r[b]);
                        }
                    }
                }
            } else {
                proof {
                    assert(self@[k] == (self.entries@[i as int]).1@);
                    assert(dst@[k] == dst_digest@);
                    assert(self@[k] == dst@[k]);
                }
            }
            proof {
                assert(old_r.len() <= r@.len());
                assert(forall|idx: int| 0 <= idx < old_r.len() ==> r@[idx] == old_r[idx]);
                assert forall|j: int|
                    0 <= j < i + 1 && self@[(#[trigger] self.entries@[j]).0@] != dst@[(
                    self.entries@[j]).0@] implies exists|idx: int|
                    0 <= idx < r@.len() && (#[trigger] r@[idx]@) == (self.entries@[j]).0@ by {
                    if j < i {
                        let idx = choose|idx: int|
                            0 <= idx < old_r.len() && (#[trigger] old_r[idx]@) == (
                            self.entries@[j]).0@;
                        assert(r@[idx]@ == (self.entries@[j]).0@);
                    } else {
                        assert(self@[k] != dst@[k]);
                        assert(r@[r@.len() - 1]@ == k);
                    }
                }
            }
            i += 1;
        }
        proof {
            assert forall|k: Seq<char>|
                self@.contains_key(k) && self@[k] != dst@[k] implies exists|idx: int|
                0 <= idx < r@.len() && (#[trigger] r@[idx]@) == k by {
                lemma_entries_map_contains(self.entries@, k);
                let j = choose|j: int|
                    0 <= j < self.entries@.len() && (#[trigger] self.entries@[j]).0@ == k;
                assert(self@[(self.entries@[j]).0@] != dst@[(self.entries@[j]).0@]);
            }
            if self@ == dst@ && r@.len() > 0 {
                assert(self@[r@[0]@] != dst@[r@[0]@]);
            }
        }
        r
    }
}

/// Byte-for-byte equality of two byte vectors.
fn eq_bytes(a: &Vec<u8>, b: &Vec<u8>) -> (r: bool)
    ensures
        r <==> a@ == b@,
{
    if a.len() != b.len() {
        return false;
    }
    let n = a.len();
    let mut i: usize = 0;
    while i < n
        invariant
            0 <= i <= n,
            n == a@.len(),
            a@.len() == b@.len(),
            forall|j: int| 0 <= j < i ==> a@[j] == b@[j],
        decreases n - i,
    {
        if a[i] != b[i] {
            return false;
        }
        i += 1;
    }
    proof {
        assert(a@ =~= b@);
    }
    true
}

/// The mapping from basename to content digest for aligned lists of file
/// paths and their contents, a later entry overwriting an earlier one that
/// shares its basename.
pub open spec fn hashes_map(paths: Seq<Seq<char>>, contents: Seq<Seq<u8>>) -> Map<
    Seq<char>,
    Seq<u8>,
>
    decreases paths.len(),
{
    if paths.len() == 0 {
        Map::empty()
    } else {
        hashes_map(paths.drop_last(), contents.drop_last()).insert(
            final_component(paths.last()),
            blake3_digest(contents.last()),
        )
    }
}

/// Hash every file's bytes and aggregate the digests into a mapping keyed
/// by the file's basename: the name-to-digest table of one side of a run.
/// A path without a basename cannot be keyed; the precondition leaves such
/// paths out.
pub fn build_hashes(paths: &Vec<String>, contents: &Vec<Vec<u8>>) -> (m: HashMapping)
    requires
        paths@.len() == contents@.len(),
        forall|i: int| 0 <= i < paths@.len() ==> has_basename(#[trigger] paths@[i]@),
    ensures
        m.wf(),
        m@ == hashes_map(views_of(paths@), byte_views_of(contents@)),
{
    let n = paths.len();
    let mut m = HashMapping::new();
    proof {
        assert(views_of(paths@.subrange(0, 0)) =~= Seq::<Seq<char>>::empty());
        assert(m@ =~= hashes_map(
            views_of(paths@.subrange(0, 0)),
            byte_views_of(contents@.subrange(0, 0)),
        ));
    }
    let mut i: usize = 0;
    while i < n
        invariant
            0 <= i <= n,
            n == paths@.len(),
            paths@.len() == contents@.len(),
            forall|k: int| 0 <= k < paths@.len() ==> has_basename(#[trigger] paths@[k]@),
            m.wf(),
            m@ == hashes_map(
                views_of(paths@.subrange(0, i as int)),
                byte_views_of(contents@.subrange(0, i as int)),
            ),
        decreases n - i,
    {
        let name = match basename(&paths[i]) {
            Some(nm) => nm,
            None => unreached(),
        };
        let digest = hash_bytes(&contents[i]);
        m.insert(name, digest);
        proof {
            let pv = views_of(paths@.subrange(0, i + 1 as int));
            let cv = byte_views_of(contents@.subrange(0, i + 1 as int));
            assert(pv.len() == i + 1);
            assert(pv.drop_last() =~= views_of(paths@.subrange(0, i as int)));
            assert(cv.drop_last() =~= byte_views_of(contents@.subrange(0, i as int)));
            assert(pv.last() == paths@[i as int]@);
            assert(cv.last() == contents@[i as int]@);
            assert(hashes_map(pv, cv) == hashes_map(pv.drop_last(), cv.drop_last()).insert(
                final_component(pv.last()),
                blake3_digest(cv.last()),
            ));
        }
        i += 1;
    }
    proof {
        assert(paths@.subrange(0, paths@.len() as int) =~= paths@);
        assert(contents@.subrange(0, contents@.len() as int) =~= contents@);
    }
    m
}

/// Law: a faithful copy verifies cleanly. When the destination paths pair
/// up with the source paths basename for basename, and every destination
/// file holds exactly the bytes of its source, the two hash mappings are
/// equal — so no name can be reported as a mismatch.
pub proof fn lemma_faithful_copy_has_no_mismatch(
    src_paths: Seq<Seq<char>>,
    src_contents: Seq<Seq<u8>>,
    dst_paths: Seq<Seq<char>>,
    dst_contents: Seq<Seq<u8>>,
)
    requires
        src_paths.len() == src_contents.len(),
        dst_paths.len() == src_paths.len(),
        dst_contents.len() == src_contents.len(),
        forall|i: int|
            0 <= i < src_paths.len() ==> final_component(#[trigger] dst_paths[i])
                == final_component(src_paths[i]),
        forall|i: int| 0 <= i < src_contents.len() ==> (#[trigger] dst_contents[i]) == src_contents[i],
    ensures
        hashes_map(dst_paths, dst_contents) == hashes_map(src_paths, src_contents),
    decreases src_paths.len(),
{
    if src_paths.len() == 0 {
        assert(hashes_map(dst_paths, dst_contents) =~= hashes_map(src_paths, src_contents));
    } else {
        lemma_faithful_copy_has_no_mismatch(
            src_paths.drop_last(),
            src_contents.drop_last(),
            dst_paths.drop_last(),
            dst_contents.drop_last(),
        );
        assert(final_component(dst_paths.last()) == final_component(src_paths.last()));
        assert(dst_contents.last() == src_contents.last());
    }
}

/// The names recorded in a mapping are exactly the basenames of the hashed
/// paths.
pub proof fn lemma_hashes_map_contains(paths: Seq<Seq<char>>, contents: Seq<Seq<u8>>, k: Seq<char>)
    requires
        paths.len() == contents.len(),
    ensures
        hashes_map(paths, contents).contains_key(k) <==> exists|i: int|
            0 <= i < paths.len() && final_component(#[trigger] paths[i]) == k,
    decreases paths.len(),
{
    if paths.len() == 0 {
    } else {
        lemma_hashes_map_contains(paths.drop_last(), contents.drop_last(), k);
        if final_component(paths.last()) == k {
            assert(final_component(paths[paths.len() - 1]) == k);
        } else {
            if hashes_map(paths, contents).contains_key(k) {
                let i = choose|i: int|
                    0 <= i < paths.drop_last().len() && final_component(
                        #[trigger] paths.drop_last()[i],
                    ) == k;
                assert(final_component(paths[i]) == k);
            }
            if exists|i: int| 0 <= i < paths.len() && final_component(#[trigger] paths[i]) == k {
                let i = choose|i: int|
                    0 <= i < paths.len() && final_component(#[trigger] paths[i]) == k;
                assert(i != paths.len() - 1);
                assert(final_component(paths.drop_last()[i]) == k);
            }
        }
    }
}

/// Law: a run's own plan covers its sources. When the destination paths
/// pair up with the source paths basename for basename, every name of the
/// source mapping is present in the destination mapping, whatever bytes
/// were read back — so the comparison never meets a missing destination
/// name.
pub proof fn lemma_planned_destinations_cover_sources(
    src_paths: Seq<Seq<char>>,
    src_contents: Seq<Seq<u8>>,
    dst_paths: Seq<Seq<char>>,
    dst_contents: Seq<Seq<u8>>,
)
    requires
        src_paths.len() == src_contents.len(),
        dst_paths.len() == src_paths.len(),
        dst_contents.len() == src_contents.len(),
        forall|i: int|
            0 <= i < src_paths.len() ==> final_component(#[trigger] dst_paths[i])
                == final_component(src_paths[i]),
    ensures
        forall|k: Seq<char>|
            hashes_map(src_paths, src_contents).contains_key(k) ==> hashes_map(
                dst_paths,
                dst_contents,
            ).contains_key(k),
{
    assert forall|k: Seq<char>|
        hashes_map(src_paths, src_contents).contains_key(k) implies hashes_map(
        dst_paths,
        dst_contents,
    ).contains_key(k) by {
        lemma_hashes_map_contains(src_paths, src_contents, k);
        lemma_hashes_map_contains(dst_paths, dst_contents, k);
        let i = choose|i: int|
            0 <= i < src_paths.len() && final_component(#[trigger] src_paths[i]) == k;
        assert(final_component(dst_paths[i]) == k);
    }
}

/// With pairwise-distinct basenames, the mapping records each file's own
/// digest under its own basename: nothing is overwritten.
pub proof fn lemma_hashes_map_index(paths: Seq<Seq<char>>, contents: Seq<Seq<u8>>, i: int)
    requires
        paths.len() == contents.len(),
        forall|a: int, b: int|
            0 <= a < b < paths.len() ==> final_component(#[trigger] paths[a]) != final_component(
                #[trigger] paths[b],
            ),
        0 <= i < paths.len(),
    ensures
        hashes_map(paths, contents).contains_key(final_component(paths[i])),
        hashes_map(paths, contents)[final_component(paths[i])] == blake3_digest(contents[i]),
    decreases paths.len(),
{
    if i == paths.len() - 1 {
    } else {
        lemma_hashes_map_index(paths.drop_last(), contents.drop_last(), i);
        assert(final_component(paths[i]) != final_component(paths[paths.len() - 1]));
    }
}

/// Law: an altered destination is reported. When the destination paths pair
/// up with the source paths basename for basename, the source basenames are
/// pairwise distinct, and the digest of one destination's bytes differs
/// from its source's, then that file's basename is a mismatch between the
/// two mappings — and the report lists each mismatched name exactly once.
pub proof fn lemma_altered_copy_is_reported(
    src_paths: Seq<Seq<char>>,
    src_contents: Seq<Seq<u8>>,
    dst_paths: Seq<Seq<char>>,
    dst_contents: Seq<Seq<u8>>,
    bad: int,
)
    requires
        src_paths.len() == src_contents.len(),
        dst_paths.len() == src_paths.len(),
        dst_contents.len() == src_contents.len(),
        forall|i: int|
            0 <= i < src_paths.len() ==> final_component(#[trigger] dst_paths[i])
                == final_component(src_paths[i]),
        forall|a: int, b: int|
            0 <= a < b < src_paths.len() ==> final_component(#[trigger] src_paths[a])
                != final_component(#[trigger] src_paths[b]),
        0 <= bad < src_paths.len(),
        blake3_digest(dst_contents[bad]) != blake3_digest(src_contents[bad]),
    ensures
        hashes_map(src_paths, src_contents).contains_key(final_component(src_paths[bad])),
        hashes_map(dst_paths, dst_contents).contains_key(final_component(src_paths[bad])),
        hashes_map(src_paths, src_contents)[final_component(src_paths[bad])] != hashes_map(
            dst_paths,
            dst_contents,
        )[final_component(src_paths[bad])],
{
    lemma_hashes_map_index(src_paths, src_contents, bad);
    assert(forall|a: int, b: int|
        0 <= a < b < dst_paths.len() ==> final_component(#[trigger] dst_paths[a])
            != final_component(#[trigger] dst_paths[b]));
    lemma_hashes_map_index(dst_paths, dst_contents, bad);
    assert(final_component(dst_paths[bad]) == final_component(src_paths[bad]));
}

} // verus!
