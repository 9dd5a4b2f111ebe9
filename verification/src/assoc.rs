use crate::pos::BlockPos;
use vstd::prelude::*;

verus! {

/// An association from chunk coordinates to values, backed by a vector of
/// pairs with pairwise-distinct keys. Viewed as a `Map` from coordinate
/// triples to value views.
#[verifier::reject_recursive_types(V)]
pub struct AssocMap<V> {
    entries: Vec<(BlockPos, V)>,
}

/// The map an entry list denotes; on duplicate keys the later entry wins,
/// though well-formed maps never hold duplicates.
pub open spec fn map_of<V: View>(s: Seq<(BlockPos, V)>) -> Map<(int, int, int), V::V>
    decreases s.len(),
{
    if s.len() == 0 {
        Map::empty()
    } else {
        map_of(s.drop_last()).insert(s.last().0@, s.last().1@)
    }
}

/// Some entry of `s` carries key `k`.
pub open spec fn has_key<V>(s: Seq<(BlockPos, V)>, k: (int, int, int)) -> bool {
    exists|i: int| 0 <= i < s.len() && (#[trigger] s[i]).0@ == k
}

/// Distinct entries carry distinct keys.
pub open spec fn distinct_keys<V>(s: Seq<(BlockPos, V)>) -> bool {
    forall|i: int, j: int|
        0 <= i < j < s.len() ==> (#[trigger] s[i]).0@ != (#[trigger] s[j]).0@
}

/// What `map_of` holds, for an entry list with distinct keys: exactly the
/// listed keys, each at its listed value.
proof fn lemma_map_of_char<V: View>(s: Seq<(BlockPos, V)>)
    requires
        distinct_keys(s),
    ensures
        forall|k: (int, int, int)| #[trigger] map_of(s).contains_key(k) <==> has_key(s, k),
        forall|i: int|
            0 <= i < s.len() ==> map_of(s).contains_key((#[trigger] s[i]).0@) && map_of(s)[s[i].0@]
                == s[i].1@,
    decreases s.len(),
{
    if s.len() > 0 {
        let inner = s.drop_last();
        assert(forall|i: int| 0 <= i < inner.len() ==> #[trigger] inner[i] == s[i]);
        assert(distinct_keys(inner)) by {
            assert forall|i: int, j: int| 0 <= i < j < inner.len() implies (#[trigger] inner[i]).0@
                != (#[trigger] inner[j]).0@ by {
                assert(inner[i] == s[i]);
                assert(inner[j] == s[j]);
                assert((s[i]).0@ != (s[j]).0@);
            }
        }
        lemma_map_of_char(inner);
        let last = s.last();
        assert(last == s[s.len() - 1]);
        assert(map_of(s) == map_of(inner).insert(last.0@, last.1@));
        assert forall|k: (int, int, int)| #[trigger] map_of(s).contains_key(k) implies has_key(
            s,
            k,
        ) by {
            if k == last.0@ {
                assert((s[s.len() - 1]).0@ == k);
            } else {
                assert(map_of(inner).contains_key(k));
                assert(has_key(inner, k));
                let i = choose|i: int| 0 <= i < inner.len() && (#[trigger] inner[i]).0@ == k;
                assert(inner[i] == s[i]);
                assert((s[i]).0@ == k);
            }
        }
        assert forall|k: (int, int, int)| has_key(s, k) implies #[trigger] map_of(s).contains_key(
            k,
        ) by {
            let i = choose|i: int| 0 <= i < s.len() && (#[trigger] s[i]).0@ == k;
            if i < s.len() - 1 {
                assert(inner[i] == s[i]);
                assert((inner[i]).0@ == k);
                assert(has_key(inner, k));
                assert(map_of(inner).contains_key(k));
            } else {
                assert(k == last.0@);
            }
        }
        assert forall|i: int| 0 <= i < s.len() implies map_of(s).contains_key(
            (#[trigger] s[i]).0@,
        ) && map_of(s)[s[i].0@] == s[i].1@ by {
            if i < s.len() - 1 {
                assert(inner[i] == s[i]);
                assert(map_of(inner).contains_key((inner[i]).0@) && map_of(inner)[(inner[i]).0@]
                    == (inner[i]).1@);
                assert((s[i]).0@ != last.0@);
            }
        }
    }
}

impl<V: View> View for AssocMap<V> {
    type V = Map<(int, int, int), V::V>;

    closed spec fn view(&self) -> Map<(int, int, int), V::V> {
        map_of(self.entries@)
    }
}

impl<V: View> AssocMap<V> {
    /// Well-formed: no key twice.
    pub closed spec fn wf(&self) -> bool {
        distinct_keys(self.entries@)
    }

    /// The keys, in residence order.
    pub closed spec fn key_seq(&self) -> Seq<(int, int, int)> {
        self.entries@.map_values(|e: (BlockPos, V)| e.0@)
    }

    /// The domain of the map is exactly the key sequence, which has no
    /// repeats.
    pub proof fn lemma_dom(&self)
        requires
            self.wf(),
        ensures
            forall|k: (int, int, int)| #[trigger]
                self@.contains_key(k) <==> self.key_seq().contains(k),
            forall|i: int, j: int|
                0 <= i < j < self.key_seq().len() ==> self.key_seq()[i] != self.key_seq()[j],
    {
        lemma_map_of_char(self.entries@);
        assert forall|k: (int, int, int)| #[trigger] self@.contains_key(k) implies self.key_seq()
            .contains(k) by {
            let i = choose|i: int|
                0 <= i < self.entries@.len() && (#[trigger] self.entries@[i]).0@ == k;
            assert(self.key_seq()[i] == k);
        }
        assert forall|k: (int, int, int)| self.key_seq().contains(k) implies #[trigger] self@
            .contains_key(k) by {
            let i = choose|i: int|
                0 <= i < self.key_seq().len() && #[trigger] self.key_seq()[i] == k;
            assert((self.entries@[i]).0@ == k);
        }
    }

    pub fn new() -> (r: AssocMap<V>)
        ensures
            r@ == Map::<(int, int, int), V::V>::empty(),
            r.wf(),
            r.key_seq() == Seq::<(int, int, int)>::empty(),
    {
        let r = AssocMap { entries: Vec::new() };
        proof {
            assert(r.key_seq() =~= Seq::<(int, int, int)>::empty());
        }
        r
    }

    /// The keys as a vector, in residence order.
    pub fn keys(&self) -> (ks: Vec<BlockPos>)
        ensures
            ks@.len() == self.key_seq().len(),
            forall|i: int| 0 <= i < ks@.len() ==> (#[trigger] ks@[i])@ == self.key_seq()[i],
    {
        let n: usize = self.entries.len();
        let mut ks: Vec<BlockPos> = Vec::new();
        let mut i: usize = 0;
        while i < n
            invariant
                n == self.entries@.len(),
                n == self.key_seq().len(),
                i <= n,
                ks@.len() == i,
                forall|j: int| 0 <= j < i ==> (#[trigger] ks@[j])@ == self.key_seq()[j],
            decreases n - i,
        {
            ks.push(self.entries[i].0);
            proof {
                assert(self.key_seq()[i as int] == (self.entries@[i as int]).0@);
            }
            i = i + 1;
        }
        ks
    }

    /// The value under `p`, if any.
    pub fn get(&self, p: BlockPos) -> (r: Option<&V>)
        requires
            self.wf(),
        ensures
            match r {
                Some(v) => self@.contains_key(p@) && v@ == self@[p@],
                None => !self@.contains_key(p@),
            },
    {
        proof {
            lemma_map_of_char(self.entries@);
        }
        let n: usize = self.entries.len();
        let mut i: usize = 0;
        while i < n
            invariant
                self.wf(),
                n == self.entries@.len(),
                i <= n,
                forall|j: int| 0 <= j < i ==> (#[trigger] self.entries@[j]).0@ != p@,
            decreases n - i,
        {
            let e = &self.entries[i];
            if e.0.x == p.x && e.0.y == p.y && e.0.z == p.z {
                proof {
                    lemma_map_of_char(self.entries@);
                    assert((self.entries@[i as int]).0@ == p@);
                }
                return Some(&self.entries[i].1);
            }
            i = i + 1;
        }
        proof {
            lemma_map_of_char(self.entries@);
            assert(!has_key(self.entries@, p@));
        }
        None
    }

    /// Removes and returns the value under `p`, if any; the rest of the map
    /// is untouched.
    pub fn remove(&mut self, p: BlockPos) -> (r: Option<V>)
        requires
            old(self).wf(),
        ensures
            final(self).wf(),
            match r {
                Some(v) => old(self)@.contains_key(p@) && v@ == old(self)@[p@] && final(self)@
                    == old(self)@.remove(p@) && final(self).key_seq() == old(self).key_seq().remove(
                    old(self).key_seq().index_of(p@),
                ),
                None => !old(self)@.contains_key(p@) && *final(self) == *old(self),
            },
    {
        proof {
            lemma_map_of_char(self.entries@);
        }
        let n: usize = self.entries.len();
        let mut i: usize = 0;
        while i < n
            invariant
                self.wf(),
                self == old(self),
                n == self.entries@.len(),
                i <= n,
                forall|j: int| 0 <= j < i ==> (#[trigger] self.entries@[j]).0@ != p@,
            decreases n - i,
        {
            let e = &self.entries[i];
            if e.0.x == p.x && e.0.y == p.y && e.0.z == p.z {
                proof {
                    assert((self.entries@[i as int]).0@ == p@);
                }
                let ghost pre = self.entries@;
                let (_, v) = self.entries.remove(i);
                proof {
                    lemma_map_of_char(pre);
                    assert(distinct_keys(self.entries@)) by {
                        assert forall|a: int, b: int|
                            0 <= a < b < self.entries@.len() implies (#[trigger] self.entries@[a]).0@
                            != (#[trigger] self.entries@[b]).0@ by {
                            let a0 = if a < i { a } else { a + 1 };
                            let b0 = if b < i { b } else { b + 1 };
                            assert(self.entries@[a] == pre[a0]);
                            assert(self.entries@[b] == pre[b0]);
                        }
                    }
                    lemma_map_of_char(self.entries@);
                    assert(self@ =~= old(self)@.remove(p@)) by {
                        assert forall|k: (int, int, int)| #[trigger] self@.contains_key(k) implies k
                            != p@ && old(self)@.contains_key(k) by {
                            let a = choose|a: int|
                                0 <= a < self.entries@.len() && (#[trigger] self.entries@[a]).0@
                                    == k;
                            let a0 = if a < i { a } else { a + 1 };
                            assert(pre[a0].0@ == k);
                        }
                        assert forall|k: (int, int, int)|
                            k != p@ && old(self)@.contains_key(k) implies #[trigger] self@
                            .contains_key(k) && self@[k] == old(self)@[k] by {
                            let a0 = choose|a0: int|
                                0 <= a0 < pre.len() && (#[trigger] pre[a0]).0@ == k;
                            let a = if a0 < i { a0 } else { a0 - 1 };
                            assert(self.entries@[a] == pre[a0]);
                            assert(self@[k] == self.entries@[a].1@);
                            assert(old(self)@[k] == pre[a0].1@);
                        }
                    }
                    assert(old(self).key_seq().index_of(p@) == i) by {
                        assert(old(self).key_seq()[i as int] == p@);
                        assert forall|j: int|
                            0 <= j < old(self).key_seq().len() && old(self).key_seq()[j]
                                == p@ implies j == i by {
                            assert((pre[j]).0@ == old(self).key_seq()[j]);
                        }
                    }
                    assert(final(self).key_seq() =~= old(self).key_seq().remove(i as int));
                }
                return Some(v);
            }
            i = i + 1;
        }
        proof {
            assert(!has_key(self.entries@, p@));
        }
        None
    }

    /// Binds `p` to `v`, replacing any earlier binding.
    pub fn insert(&mut self, p: BlockPos, v: V)
        requires
            old(self).wf(),
        ensures
            final(self).wf(),
            final(self)@ == old(self)@.insert(p@, v@),
            final(self)@.contains_key(p@),
    {
        let _ = self.remove(p);
        let ghost mid = self.entries@;
        proof {
            lemma_map_of_char(mid);
        }
        self.entries.push((p, v));
        proof {
            assert(self.entries@.drop_last() =~= mid);
            assert(!has_key(mid, p@));
            assert(distinct_keys(self.entries@)) by {
                assert forall|a: int, b: int|
                    0 <= a < b < self.entries@.len() implies (#[trigger] self.entries@[a]).0@
                    != (#[trigger] self.entries@[b]).0@ by {
                    if b == self.entries@.len() - 1 {
                        assert(self.entries@[a] == mid[a]);
                        assert(!((mid[a]).0@ == p@));
                    } else {
                        assert(self.entries@[a] == mid[a]);
                        assert(self.entries@[b] == mid[b]);
                    }
                }
            }
            assert(self@ == map_of(mid).insert(p@, v@));
            assert(self@ =~= old(self)@.insert(p@, v@));
        }
    }
}

} // verus!
