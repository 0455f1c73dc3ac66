//! Values by path. Paths with the same parts are one key.

use vstd::prelude::*;

use crate::path;
use crate::path::FilePath;
use crate::path_index;
use crate::path_index::PathIndex;
use crate::text;

verus! {

/// Values by path: each value with its key in a list, and an index into it.
pub struct PathTable<T> {
    index: PathIndex,
    entries: Vec<(Vec<Vec<u8>>, T)>,
}

fn copy_key(key: &Vec<Vec<u8>>) -> (r: Vec<Vec<u8>>)
    ensures
        path_index::key_of(r@) == path_index::key_of(key@),
{
    let mut out: Vec<Vec<u8>> = Vec::new();
    let mut i: usize = 0;
    while i < key.len()
        invariant
            i <= key@.len(),
            path_index::key_of(out@) =~= path_index::key_of(key@).take(i as int),
        decreases key@.len() - i,
    {
        let ghost so_far = out@;
        out.push(text::copy_bytes(key[i].as_slice()));
        proof {
            assert(path_index::key_of(out@) =~= path_index::key_of(so_far).push(key@[i as int]@));
            assert(path_index::key_of(key@).take(i + 1) =~= path_index::key_of(key@).take(
                i as int,
            ).push(key@[i as int]@));
        }
        i = i + 1;
    }
    proof {
        assert(path_index::key_of(key@).take(i as int) =~= path_index::key_of(key@));
    }
    out
}

impl<T: Copy> PathTable<T> {
    /// The key at a place of the list.
    spec fn key_at(self, i: int) -> Seq<Seq<u8>> {
        path_index::key_of(self.entries@[i].0@)
    }

    /// The index leads to every place, and every place has its key.
    pub closed spec fn wf(self) -> bool {
        let slots = path_index::slots(self.index);
        &&& forall|k: Seq<Seq<u8>>| #[trigger]
            slots.contains_key(k) ==> slots[k] < self.entries@.len() && self.key_at(
                slots[k] as int,
            ) == k
        &&& forall|i: int|
            0 <= i < self.entries@.len() ==> slots.contains_key(#[trigger] self.key_at(i))
                && slots[self.key_at(i)] == i
    }

    /// The values by the parts of their paths.
    pub closed spec fn view(&self) -> Map<Seq<Seq<u8>>, T> {
        let slots = path_index::slots(self.index);
        Map::new(
            |k: Seq<Seq<u8>>| slots.contains_key(k),
            |k: Seq<Seq<u8>>| self.entries@[slots[k] as int].1,
        )
    }

    /// A table without values.
    pub fn new() -> (r: PathTable<T>)
        ensures
            r.wf(),
            r.view() == Map::<Seq<Seq<u8>>, T>::empty(),
    {
        let r = PathTable { index: PathIndex::new(), entries: Vec::new() };
        proof {
            assert(r.view() =~= Map::<Seq<Seq<u8>>, T>::empty());
        }
        r
    }

    /// The value of a path.
    pub fn get(&self, p: &FilePath) -> (r: Option<T>)
        requires
            self.wf(),
        ensures
            r == (if self.view().contains_key(path::parts(p@)) {
                Some(self.view()[path::parts(p@)])
            } else {
                None
            }),
    {
        let key = p.all_parts();
        proof {
            assert(path_index::key_of(key@) =~= path::parts(p@));
            assert(path_index::slots(self.index).contains_key(path::parts(p@))
                == self.view().contains_key(path::parts(p@)));
        }
        match self.index.get(&key) {
            Some(i) => Some(self.entries[i].1),
            None => None,
        }
    }

    /// Sets the value of a path.
    pub fn insert(&mut self, p: &FilePath, v: T)
        requires
            old(self).wf(),
        ensures
            final(self).wf(),
            final(self).view() == old(self).view().insert(path::parts(p@), v),
    {
        let key = p.all_parts();
        let ghost want = self.view().insert(path::parts(p@), v);
        let ghost slots = path_index::slots(self.index);
        let ghost es = self.entries@;
        proof {
            assert(path_index::key_of(key@) =~= path::parts(p@));
        }
        match self.index.get(&key) {
            Some(i) => {
                proof {
                    assert(slots.contains_key(path::parts(p@)));
                }
                self.entries.set(i, (key, v));
                proof {
                    assert forall|j: int| 0 <= j < self.entries@.len() implies self.key_at(j)
                        == path_index::key_of(es[j].0@) by {}
                    assert forall|j: int| 0 <= j < self.entries@.len() implies slots.contains_key(
                        #[trigger] self.key_at(j),
                    ) && slots[self.key_at(j)] == j by {
                        assert(slots.contains_key(old(self).key_at(j)));
                    }
                    assert(self.view() =~= want);
                }
            },
            None => {
                let at: usize = self.entries.len();
                let again = copy_key(&key);
                self.entries.push((key, v));
                self.index.insert(again, at);
                proof {
                    let now = path_index::slots(self.index);
                    assert forall|j: int| 0 <= j < self.entries@.len() implies now.contains_key(
                        #[trigger] self.key_at(j),
                    ) && now[self.key_at(j)] == j by {
                        if j < at {
                            assert(self.key_at(j) == old(self).key_at(j));
                            assert(slots.contains_key(old(self).key_at(j)));
                        }
                    }
                    assert forall|k: Seq<Seq<u8>>| #[trigger] now.contains_key(k) implies now[k]
                        < self.entries@.len() && self.key_at(now[k] as int) == k by {
                        if k != path::parts(p@) {
                            assert(slots.contains_key(k));
                            assert(self.key_at(now[k] as int) == old(self).key_at(slots[k] as int));
                        }
                    }
                    assert(self.view() =~= want);
                }
            },
        }
    }

    /// Takes a path out, if it is there.
    pub fn remove(&mut self, p: &FilePath)
        requires
            old(self).wf(),
        ensures
            final(self).wf(),
            final(self).view() == old(self).view().remove(path::parts(p@)),
    {
        let key = p.all_parts();
        let ghost want = self.view().remove(path::parts(p@));
        let ghost slots = path_index::slots(self.index);
        let ghost es = self.entries@;
        proof {
            assert(path_index::key_of(key@) =~= path::parts(p@));
        }
        if let Some(i) = self.index.get(&key) {
            proof {
                assert(slots.contains_key(path::parts(p@)));
            }
            let last: usize = self.entries.len() - 1;
            self.index.remove(&key);
            if i < last {
                let moved = copy_key(&self.entries[last].0);
                self.index.insert(moved, i);
            }
            let _ = self.entries.swap_remove(i);
            proof {
                let now = path_index::slots(self.index);
                let end = path_index::key_of(es[last as int].0@);
                assert(old(self).key_at(last as int) == end);
                assert(slots.contains_key(end) && slots[end] == last);
                assert(old(self).key_at(i as int) == path::parts(p@));
                assert forall|j: int| 0 <= j < self.entries@.len() implies now.contains_key(
                    #[trigger] self.key_at(j),
                ) && now[self.key_at(j)] == j by {
                    if j == i {
                        assert(self.key_at(j) == end);
                    } else {
                        assert(self.key_at(j) == old(self).key_at(j));
                        assert(slots.contains_key(old(self).key_at(j)));
                    }
                }
                assert forall|k: Seq<Seq<u8>>| #[trigger] now.contains_key(k) implies now[k]
                    < self.entries@.len() && self.key_at(now[k] as int) == k by {
                    if k == end && i < last {
                        assert(now[k] == i);
                    } else {
                        assert(slots.contains_key(k));
                        assert(slots[k] != last) by {
                            if slots[k] == last {
                                assert(old(self).key_at(last as int) == k);
                            }
                        }
                        assert(slots[k] != i) by {
                            if slots[k] == i {
                                assert(old(self).key_at(i as int) == k);
                            }
                        }
                        assert(self.key_at(now[k] as int) == old(self).key_at(slots[k] as int));
                    }
                }
                assert(self.view() =~= want);
            }
        } else {
            proof {
                assert(self.view() =~= want);
            }
        }
    }
}

} // verus!
