//! Flat projection: the namespace as a plain key-to-value mapping with
//! unique, ordered keys. The canonical form for export and for an import's
//! desired state.

use vstd::prelude::*;
use crate::codec::{decode_value, decoded_of};
use crate::entry::Entry;
use crate::keys::{lemma_lex_lt_irrefl, lemma_lex_lt_total, lemma_lex_lt_trans, lex_lt, str_lt};
use crate::tree::entries_flat_map;

verus! {

/// The mapping a pair list denotes: later pairs overwrite earlier ones.
pub open spec fn pairs_map(ps: Seq<(String, String)>) -> Map<Seq<char>, Seq<char>>
    decreases ps.len(),
{
    if ps.len() == 0 {
        Map::empty()
    } else {
        pairs_map(ps.drop_last()).insert(ps.last().0@, ps.last().1@)
    }
}

/// Keys strictly ordered: unique and deterministic to walk.
pub open spec fn sorted_pairs(ps: Seq<(String, String)>) -> bool {
    forall|i: int, j: int|
        0 <= i < j < ps.len() ==> lex_lt(#[trigger] ps[i].0@, #[trigger] ps[j].0@)
}

/// A flat key-to-value mapping, kept in ascending key order: one pair per
/// key, walked deterministically.
pub struct FlatMapping {
    pub pairs: Vec<(String, String)>,
}

impl View for FlatMapping {
    type V = Map<Seq<char>, Seq<char>>;

    open spec fn view(&self) -> Map<Seq<char>, Seq<char>> {
        pairs_map(self.pairs@)
    }
}

/// Sorted pairs never repeat a key.
pub proof fn lemma_sorted_pairs_distinct(ps: Seq<(String, String)>)
    requires
        sorted_pairs(ps),
    ensures
        forall|i: int, j: int|
            0 <= i < ps.len() && 0 <= j < ps.len() && i != j ==> (#[trigger] ps[i].0)@ != (
            #[trigger] ps[j].0)@,
{
    assert forall|i: int, j: int|
        0 <= i < ps.len() && 0 <= j < ps.len() && i != j implies (ps[i].0)@ != (ps[j].0)@ by {
        if ps[i].0@ == ps[j].0@ {
            if i < j {
                assert(lex_lt(ps[i].0@, ps[j].0@));
            } else {
                assert(lex_lt(ps[j].0@, ps[i].0@));
            }
            lemma_lex_lt_irrefl(ps[i].0@);
        }
    }
}

/// The mapping of a pair list never holds a key no pair bears.
pub proof fn lemma_pairs_map_dom(ps: Seq<(String, String)>, k: Seq<char>)
    requires
        pairs_map(ps).dom().contains(k),
    ensures
        exists|i: int| 0 <= i < ps.len() && (#[trigger] ps[i].0)@ == k,
    decreases ps.len(),
{
    if ps.len() > 0 {
        if ps.last().0@ == k {
            assert((ps[ps.len() - 1].0)@ == k);
        } else {
            lemma_pairs_map_dom(ps.drop_last(), k);
            let i = choose|i: int|
                0 <= i < ps.drop_last().len() && (#[trigger] ps.drop_last()[i].0)@ == k;
            assert((ps[i].0)@ == k);
        }
    }
}

/// Replacing pair `j` with one bearing the same key replaces that key's
/// binding and no other.
proof fn lemma_pairs_map_update(ps: Seq<(String, String)>, j: int, k: String, v: String)
    requires
        0 <= j < ps.len(),
        k@ == ps[j].0@,
        forall|i: int|
            0 <= i < ps.len() && i != j ==> (#[trigger] ps[i].0)@ != ps[j].0@,
    ensures
        pairs_map(ps.update(j, (k, v))) == pairs_map(ps).insert(k@, v@),
    decreases ps.len(),
{
    let ps2 = ps.update(j, (k, v));
    if j == ps.len() - 1 {
        assert(ps2.drop_last() =~= ps.drop_last());
        assert(ps2.last() == (k, v));
        assert(pairs_map(ps2) =~= pairs_map(ps).insert(k@, v@));
    } else {
        assert(ps2.drop_last() =~= ps.drop_last().update(j, (k, v)));
        assert(ps.drop_last()[j] == ps[j]);
        lemma_pairs_map_update(ps.drop_last(), j, k, v);
        assert(ps2.last() == ps.last());
        assert(ps.last().0@ != ps[j].0@);
        assert(pairs_map(ps2) =~= pairs_map(ps).insert(k@, v@));
    }
}

/// Inserting a pair with a fresh key adds that binding and no other.
proof fn lemma_pairs_map_insert(ps: Seq<(String, String)>, j: int, k: String, v: String)
    requires
        0 <= j <= ps.len(),
        forall|i: int| 0 <= i < ps.len() ==> (#[trigger] ps[i].0)@ != k@,
    ensures
        pairs_map(ps.insert(j, (k, v))) == pairs_map(ps).insert(k@, v@),
    decreases ps.len(),
{
    let ps2 = ps.insert(j, (k, v));
    ps.insert_ensures(j, (k, v));
    if j == ps.len() {
        assert(ps2.drop_last() =~= ps);
        assert(ps2.last() == (k, v));
    } else {
        assert(ps2.last() == ps.last());
        assert(ps2.drop_last() =~= ps.drop_last().insert(j, (k, v)));
        lemma_pairs_map_insert(ps.drop_last(), j, k, v);
        assert(ps.last().0@ != k@);
        assert(pairs_map(ps2) =~= pairs_map(ps).insert(k@, v@));
    }
}

impl FlatMapping {
    /// The mapping is well formed: pairs in strictly ascending key order.
    pub open spec fn wf(&self) -> bool {
        sorted_pairs(self.pairs@)
    }

    /// The empty mapping.
    pub fn new() -> (m: FlatMapping)
        ensures
            m.wf(),
            m@ == Map::<Seq<char>, Seq<char>>::empty(),
            m.pairs@.len() == 0,
    {
        let m = FlatMapping { pairs: Vec::new() };
        proof {
            assert(m@ =~= Map::<Seq<char>, Seq<char>>::empty());
        }
        m
    }

    /// Sets one key's value: the mapping afterwards binds `key` to `value`
    /// and every other key as before; key order is kept.
    pub fn set_pair(&mut self, key: String, value: String)
        requires
            old(self).wf(),
        ensures
            final(self).wf(),
            final(self)@ == old(self)@.insert(key@, value@),
    {
        let ghost ps = self.pairs@;
        let n = self.pairs.len();
        let mut j: usize = 0;
        while j < n && str_lt(self.pairs[j].0.as_str(), key.as_str())
            invariant
                j <= n,
                n == ps.len(),
                self.pairs@ == ps,
                forall|idx: int| 0 <= idx < j ==> lex_lt((#[trigger] ps[idx].0)@, key@),
            decreases n - j,
        {
            j = j + 1;
        }
        proof {
            lemma_sorted_pairs_distinct(ps);
        }
        if j < n && self.pairs[j].0 == key {
            let ghost kk = key;
            self.pairs.remove(j);
            self.pairs.insert(j, (key, value));
            proof {
                assert(kk@ == ps[j as int].0@);
                assert(self.pairs@ =~= ps.update(j as int, (kk, value))) by {
                    assert forall|idx: int| 0 <= idx < ps.len() implies self.pairs@[idx]
                        == ps.update(j as int, (kk, value))[idx] by {
                        let mid = ps.remove(j as int);
                        mid.insert_ensures(j as int, (kk, value));
                        if idx < j {
                            assert(self.pairs@[idx] == mid[idx]);
                        } else if idx > j {
                            assert(self.pairs@[idx] == mid[idx - 1]);
                        } else {
                            assert(self.pairs@[idx] == (kk, value));
                        }
                    }
                }
                lemma_pairs_map_update(ps, j as int, kk, value);
                assert(forall|idx: int|
                    0 <= idx < ps.len() ==> (#[trigger] self.pairs@[idx].0)@ == ps[idx].0@);
                assert(final(self).wf());
            }
        } else {
            proof {
                if j < n {
                    assert(!lex_lt(ps[j as int].0@, key@));
                    assert(ps[j as int].0@ != key@);
                    lemma_lex_lt_total(ps[j as int].0@, key@);
                    assert(lex_lt(key@, ps[j as int].0@));
                }
                assert forall|idx: int| j <= idx < ps.len() implies lex_lt(
                    key@,
                    (#[trigger] ps[idx].0)@,
                ) by {
                    if idx > j {
                        assert(lex_lt(ps[j as int].0@, ps[idx].0@));
                        lemma_lex_lt_trans(key@, ps[j as int].0@, ps[idx].0@);
                    }
                }
                assert forall|idx: int| 0 <= idx < ps.len() implies (#[trigger] ps[idx].0)@
                    != key@ by {
                    if ps[idx].0@ == key@ {
                        lemma_lex_lt_irrefl(key@);
                    }
                }
                lemma_pairs_map_insert(ps, j as int, key, value);
            }
            let ghost kk = key@;
            self.pairs.insert(j, (key, value));
            proof {
                let ps2 = self.pairs@;
                ps.insert_ensures(j as int, self.pairs@[j as int]);
                assert(sorted_pairs(ps2)) by {
                    assert forall|a: int, b: int| 0 <= a < b < ps2.len() implies lex_lt(
                        (#[trigger] ps2[a].0)@,
                        (#[trigger] ps2[b].0)@,
                    ) by {
                        if a < j && b < j {
                            assert(ps2[a] == ps[a] && ps2[b] == ps[b]);
                        } else if a < j && b == j {
                            assert(ps2[a] == ps[a]);
                            assert(lex_lt(ps[a].0@, kk));
                        } else if a < j && b > j {
                            assert(ps2[a] == ps[a] && ps2[b] == ps[b - 1]);
                        } else if a == j {
                            assert(ps2[b] == ps[b - 1]);
                            assert(lex_lt(kk, ps[b - 1].0@));
                        } else {
                            assert(ps2[a] == ps[a - 1] && ps2[b] == ps[b - 1]);
                        }
                    }
                }
            }
        }
    }
}

/// Collapses an entry list to the flat mapping it denotes: each
/// value decoded through the wire codec, entries that do not decode
/// silently dropped, later duplicates overwriting earlier ones.
pub fn to_flat_mapping(entries: &Vec<Entry>) -> (m: FlatMapping)
    ensures
        m.wf(),
        m@ == entries_flat_map(entries@),
{
    let mut m = FlatMapping::new();
    proof {
        assert(m@ =~= entries_flat_map(entries@.take(0)));
    }
    let n = entries.len();
    let mut idx: usize = 0;
    while idx < n
        invariant
            idx <= n,
            n == entries@.len(),
            m.wf(),
            m@ == entries_flat_map(entries@.take(idx as int)),
        decreases n - idx,
    {
        let ghost e = entries@[idx as int];
        proof {
            assert(entries@.take(idx + 1).drop_last() =~= entries@.take(idx as int));
            assert(entries@.take(idx + 1).last() == e);
        }
        match decode_value(entries[idx].value.as_str()) {
            Some(text) => {
                let key = entries[idx].key.clone();
                m.set_pair(key, text);
            },
            None => {
                proof {
                    assert(decoded_of(e.value@) is None);
                }
            },
        }
        idx = idx + 1;
    }
    proof {
        assert(entries@.take(n as int) =~= entries@);
    }
    m
}

} // verus!
