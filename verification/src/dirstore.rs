//! The fragment store's directory model: the keyed set of document texts
//! that a store directory holds, one entry per file. `put` overwrites
//! unconditionally (last write wins, never a merge); `get` looks a key up;
//! the entries can be walked in order for registry generation. The
//! filesystem boundary mirrors this value onto disk.

use vstd::prelude::*;

verus! {

/// Look a key up in an entry sequence: the first entry with that key.
pub open spec fn seq_get(s: Seq<(String, String)>, key: Seq<char>) -> Option<Seq<char>>
    decreases s.len(),
{
    if s.len() == 0 {
        None
    } else if s[0].0@ == key {
        Some(s[0].1@)
    } else {
        seq_get(s.drop_first(), key)
    }
}

proof fn lemma_seq_get_first(s: Seq<(String, String)>, key: Seq<char>, i: int)
    requires
        0 <= i < s.len(),
        forall|j: int| 0 <= j < i ==> s[j].0@ != key,
        s[i].0@ == key,
    ensures
        seq_get(s, key) == Some(s[i].1@),
    decreases i,
{
    if i > 0 {
        lemma_seq_get_first(s.drop_first(), key, i - 1);
    }
}

proof fn lemma_seq_get_absent(s: Seq<(String, String)>, key: Seq<char>)
    requires
        forall|j: int| 0 <= j < s.len() ==> s[j].0@ != key,
    ensures
        seq_get(s, key) is None,
    decreases s.len(),
{
    if s.len() > 0 {
        lemma_seq_get_absent(s.drop_first(), key);
    }
}

proof fn lemma_seq_get_update(s: Seq<(String, String)>, i: int, e: (String, String), k: Seq<char>)
    requires
        0 <= i < s.len(),
        e.0@ == s[i].0@,
        k != e.0@,
    ensures
        seq_get(s.update(i, e), k) == seq_get(s, k),
    decreases i,
{
    let s2 = s.update(i, e);
    if i == 0 {
        assert(s2.drop_first() =~= s.drop_first());
    } else {
        assert(s2[0] == s[0]);
        assert(s2.drop_first() =~= s.drop_first().update(i - 1, e));
        lemma_seq_get_update(s.drop_first(), i - 1, e, k);
    }
}

proof fn lemma_seq_get_push(s: Seq<(String, String)>, e: (String, String), k: Seq<char>)
    ensures
        seq_get(s.push(e), k) == if seq_get(s, k) is Some {
            seq_get(s, k)
        } else if e.0@ == k {
            Some(e.1@)
        } else {
            None::<Seq<char>>
        },
    decreases s.len(),
{
    let s2 = s.push(e);
    if s.len() == 0 {
        assert(s2[0] == e);
        assert(s2.drop_first() =~= Seq::<(String, String)>::empty());
        assert(seq_get(s2.drop_first(), k) is None);
        assert(seq_get(s, k) is None);
    } else {
        assert(s2[0] == s[0]);
        assert(s2.drop_first() =~= s.drop_first().push(e));
        lemma_seq_get_push(s.drop_first(), e, k);
        if s[0].0@ == k {
            assert(seq_get(s, k) == Some(s[0].1@));
            assert(seq_get(s2, k) == Some(s2[0].1@));
        } else {
            assert(seq_get(s, k) == seq_get(s.drop_first(), k));
            assert(seq_get(s2, k) == seq_get(s2.drop_first(), k));
        }
    }
}

/// The contents of the store directory: document texts keyed by file name.
pub struct DirStore {
    pub entries: Vec<(String, String)>,
}

impl DirStore {
    /// Well-formed: no two entries share a key, as files in one directory
    /// cannot share a name.
    pub open spec fn wf(self) -> bool {
        forall|i: int, j: int|
            0 <= i < j < self.entries@.len() ==> self.entries@[i].0@ != self.entries@[j].0@
    }

    /// The document text stored under a key.
    pub open spec fn spec_get(self, key: Seq<char>) -> Option<Seq<char>> {
        seq_get(self.entries@, key)
    }

    /// An empty directory.
    pub fn new() -> (r: Self)
        ensures
            r.wf(),
            r.entries@.len() == 0,
            forall|k: Seq<char>| r.spec_get(k) is None,
    {
        let s = DirStore { entries: Vec::new() };
        proof {
            assert forall|k: Seq<char>| s.spec_get(k) is None by {
                lemma_seq_get_absent(s.entries@, k);
            }
        }
        s
    }

    /// Store a document text under a key, overwriting unconditionally: after
    /// the call the key holds exactly this text, every other key is
    /// untouched, and no second entry appears for an existing key (last
    /// write wins, not a merge).
    pub fn put(&mut self, key: &str, text: String)
        requires
            old(self).wf(),
        ensures
            final(self).wf(),
            final(self).spec_get(key@) == Some(text@),
            forall|k: Seq<char>|
                k != key@ ==> final(self).spec_get(k) == old(self).spec_get(k),
            old(self).spec_get(key@) is Some ==> final(self).entries@.len() == old(
                self,
            ).entries@.len(),
            old(self).spec_get(key@) is None ==> final(self).entries@.len() == old(
                self,
            ).entries@.len() + 1,
    {
        let keys: String = key.to_owned();
        let n = self.entries.len();
        let mut i: usize = 0;
        while i < n
            invariant
                n == self.entries@.len(),
                i <= n,
                keys@ == key@,
                *self == *old(self),
                old(self).wf(),
                forall|j: int| 0 <= j < i ==> self.entries@[j].0@ != key@,
            decreases n - i,
        {
            let hit = self.entries[i].0.eq(&keys);
            if hit {
                let k2: String = key.to_owned();
                proof {
                    lemma_seq_get_first(self.entries@, key@, i as int);
                }
                let ghost olds = self.entries@;
                self.entries.set(i, (k2, text));
                proof {
                    assert(self.entries@ =~= olds.update(i as int, self.entries@[i as int]));
                    lemma_seq_get_first(self.entries@, key@, i as int);
                    assert forall|k: Seq<char>| k != key@ implies seq_get(self.entries@, k)
                        == seq_get(olds, k) by {
                        lemma_seq_get_update(olds, i as int, self.entries@[i as int], k);
                    }
                    assert(olds =~= old(self).entries@);
                    assert(old(self).wf());
                    assert forall|i2: int, j2: int|
                        0 <= i2 < j2 < self.entries@.len() implies self.entries@[i2].0@
                        != self.entries@[j2].0@ by {
                        assert(0 <= i2 < j2 < old(self).entries@.len());
                        assert(old(self).entries@[i2].0@ != old(self).entries@[j2].0@);
                        assert(self.entries@[i2].0@ == olds[i2].0@);
                        assert(self.entries@[j2].0@ == olds[j2].0@);
                    }
                }
                return ;
            }
            i = i + 1;
        }
        proof {
            lemma_seq_get_absent(self.entries@, key@);
        }
        let k2: String = key.to_owned();
        let ghost olds = self.entries@;
        self.entries.push((k2, text));
        proof {
            assert(self.entries@ =~= olds.push(self.entries@[olds.len() as int]));
            assert forall|k: Seq<char>| true implies seq_get(self.entries@, k) == (if seq_get(
                olds,
                k,
            ) is Some {
                seq_get(olds, k)
            } else if k == key@ {
                Some(text@)
            } else {
                None::<Seq<char>>
            }) by {
                lemma_seq_get_push(olds, self.entries@[olds.len() as int], k);
            }
            assert forall|i2: int, j2: int|
                0 <= i2 < j2 < self.entries@.len() implies self.entries@[i2].0@
                != self.entries@[j2].0@ by {
                if j2 < olds.len() {
                } else {
                    assert(self.entries@[j2].0@ == key@);
                }
            }
        }
    }

    /// Look a key up: the stored document text, or `None` when the key has
    /// no file.
    pub fn get(&self, key: &str) -> (r: Option<String>)
        ensures
            match r {
                Some(t) => self.spec_get(key@) == Some(t@),
                None => self.spec_get(key@) is None,
            },
    {
        let keys: String = key.to_owned();
        let n = self.entries.len();
        let mut i: usize = 0;
        while i < n
            invariant
                n == self.entries@.len(),
                i <= n,
                keys@ == key@,
                forall|j: int| 0 <= j < i ==> self.entries@[j].0@ != key@,
            decreases n - i,
        {
            let hit = self.entries[i].0.eq(&keys);
            if hit {
                proof {
                    lemma_seq_get_first(self.entries@, key@, i as int);
                }
                return Some(self.entries[i].1.clone());
            }
            i = i + 1;
        }
        proof {
            lemma_seq_get_absent(self.entries@, key@);
        }
        None
    }

    /// The number of stored documents.
    pub fn len(&self) -> (r: usize)
        ensures
            r == self.entries@.len(),
    {
        self.entries.len()
    }

    /// The entry at a walk position: its key and its document text.
    pub fn at(&self, i: usize) -> (r: &(String, String))
        requires
            i < self.entries@.len(),
        ensures
            *r == self.entries@[i as int],
    {
        &self.entries[i]
    }
}

} // verus!
