use vstd::prelude::*;

use crate::transaction::{OutputView, TransactionOutput};

verus! {

/// An unspent output under its key, with its soft-reservation flag.
pub struct UtxoEntry {
    pub hash: crate::hash::Hash,
    pub reserved: bool,
    pub output: TransactionOutput,
}

pub struct UtxoEntryView {
    pub hash: crate::hash::Hash,
    pub reserved: bool,
    pub output: OutputView,
}

impl View for UtxoEntry {
    type V = UtxoEntryView;

    open spec fn view(&self) -> UtxoEntryView {
        UtxoEntryView { hash: self.hash, reserved: self.reserved, output: self.output@ }
    }
}

impl Clone for UtxoEntry {
    fn clone(&self) -> (r: Self)
        ensures
            r@ == self@,
    {
        UtxoEntry { hash: self.hash, reserved: self.reserved, output: self.output.clone() }
    }
}

pub open spec fn entry_views(v: Seq<UtxoEntry>) -> Seq<UtxoEntryView> {
    v.map_values(|e: UtxoEntry| e@)
}

/// The first entry under key `h`.
pub open spec fn first_entry(s: Seq<UtxoEntryView>, h: crate::hash::Hash) -> Option<UtxoEntryView>
    decreases s.len(),
{
    if s.len() == 0 {
        None
    } else if s[0].hash == h {
        Some(s[0])
    } else {
        first_entry(s.skip(1), h)
    }
}

/// The map from key to (reservation flag, output) that a list of entries stands for.
pub open spec fn entries_map(s: Seq<UtxoEntryView>) -> Map<crate::hash::Hash, (bool, OutputView)> {
    Map::new(
        |h: crate::hash::Hash| first_entry(s, h) is Some,
        |h: crate::hash::Hash| (first_entry(s, h)->0.reserved, first_entry(s, h)->0.output),
    )
}

proof fn lemma_first_entry_push(s: Seq<UtxoEntryView>, e: UtxoEntryView, h: crate::hash::Hash)
    ensures
        first_entry(s.push(e), h) == if first_entry(s, h) is Some {
            first_entry(s, h)
        } else if e.hash == h {
            Some(e)
        } else {
            None
        },
    decreases s.len(),
{
    if s.len() > 0 {
        assert(s.push(e).skip(1) =~= s.skip(1).push(e));
        assert(s.push(e)[0] == s[0]);
        lemma_first_entry_push(s.skip(1), e, h);
    } else {
        assert(s.push(e).skip(1) =~= Seq::<UtxoEntryView>::empty());
        assert(s.push(e)[0] == e);
        assert(first_entry(Seq::<UtxoEntryView>::empty(), h) == None::<UtxoEntryView>);
    }
}

proof fn lemma_first_entry_without(s: Seq<UtxoEntryView>, key: crate::hash::Hash, h: crate::hash::Hash)
    ensures
        first_entry(s.filter(|e: UtxoEntryView| e.hash != key), h) == if h == key {
            None
        } else {
            first_entry(s, h)
        },
    decreases s.len(),
{
    let f = |e: UtxoEntryView| e.hash != key;
    if s.len() == 0 {
        assert(s.filter(f) =~= s);
    } else {
        lemma_first_entry_without(s.skip(1), key, h);
        assert(s =~= seq![s[0]] + s.skip(1));
        vstd::seq_lib::lemma_seq_skip_nothing::<UtxoEntryView>(s, 0);
        assert(s.filter(f) =~= seq![s[0]].filter(f) + s.skip(1).filter(f)) by {
            Seq::filter_distributes_over_add(seq![s[0]], s.skip(1), f);
        }
        reveal(Seq::filter);
        assert(seq![s[0]].drop_last() =~= Seq::<UtxoEntryView>::empty());
        assert(Seq::<UtxoEntryView>::empty().filter(f) =~= Seq::<UtxoEntryView>::empty());
        if s[0].hash != key {
            assert(seq![s[0]].filter(f) =~= seq![s[0]]);
            assert((seq![s[0]] + s.skip(1).filter(f)).skip(1) =~= s.skip(1).filter(f));
        } else {
            assert(seq![s[0]].filter(f) =~= Seq::<UtxoEntryView>::empty());
            assert(seq![s[0]].filter(f) + s.skip(1).filter(f) =~= s.skip(1).filter(f));
        }
    }
}

proof fn lemma_first_entry_update(s: Seq<UtxoEntryView>, i: int, flag: bool, h: crate::hash::Hash)
    requires
        0 <= i < s.len(),
        forall|j: int| 0 <= j < i ==> s[j].hash != s[i].hash,
    ensures
        first_entry(s.update(i, UtxoEntryView { reserved: flag, ..s[i] }), h) == if h == s[i].hash {
            Some(UtxoEntryView { reserved: flag, ..s[i] })
        } else {
            first_entry(s, h)
        },
    decreases s.len(),
{
    let e = UtxoEntryView { reserved: flag, ..s[i] };
    let s2 = s.update(i, e);
    assert(s2[0] == if i == 0 { e } else { s[0] });
    if i > 0 {
        assert(s2.skip(1) =~= s.skip(1).update(i - 1, e));
        assert(s.skip(1)[i - 1] == s[i]);
        assert forall|j: int| 0 <= j < i - 1 implies #[trigger] s.skip(1)[j].hash != s.skip(1)[i - 1].hash by {
            assert(s.skip(1)[j] == s[j + 1]);
        }
        lemma_first_entry_update(s.skip(1), i - 1, flag, h);
    } else {
        assert(s2.skip(1) =~= s.skip(1));
    }
}

/// Outputs not yet spent, keyed by the hash of the output.
pub struct UtxoSet {
    entries: Vec<UtxoEntry>,
}

impl View for UtxoSet {
    type V = Map<crate::hash::Hash, (bool, OutputView)>;

    closed spec fn view(&self) -> Map<crate::hash::Hash, (bool, OutputView)> {
        entries_map(self.entries@.map_values(|e: UtxoEntry| e@))
    }
}

impl UtxoSet {
    pub fn new() -> (r: UtxoSet)
        ensures
            r@ == Map::<crate::hash::Hash, (bool, OutputView)>::empty(),
    {
        let r = UtxoSet { entries: Vec::new() };
        assert(r@ =~= Map::<crate::hash::Hash, (bool, OutputView)>::empty());
        r
    }

    /// The entries, oldest first; the first entry under a key is the one the map holds.
    pub closed spec fn entry_list(&self) -> Seq<UtxoEntryView> {
        self.entries@.map_values(|e: UtxoEntry| e@)
    }

    /// The entries, oldest first.
    pub fn entries(&self) -> (r: &Vec<UtxoEntry>)
        ensures
            entry_views(r@) == self.entry_list(),
            entries_map(entry_views(r@)) == self@,
    {
        assert(entry_views(self.entries@) =~= self.entry_list());
        &self.entries
    }

    /// The outputs paying `key`, each with its reservation flag, in entry order.
    pub fn owned_by(&self, key: &crate::crypto::PublicKey) -> (r: Vec<(TransactionOutput, bool)>)
        ensures
            r@.map_values(|p: (TransactionOutput, bool)| (p.0@, p.1)) == self.entry_list().filter(
                |e: UtxoEntryView| e.output.pubkey == key@,
            ).map_values(|e: UtxoEntryView| (e.output, e.reserved)),
    {
        let ghost es = self.entry_list();
        let ghost f = |e: UtxoEntryView| e.output.pubkey == key@;
        let ghost g = |e: UtxoEntryView| (e.output, e.reserved);
        let ghost h = |p: (TransactionOutput, bool)| (p.0@, p.1);
        let mut out: Vec<(TransactionOutput, bool)> = Vec::new();
        let mut i: usize = 0;
        while i < self.entries.len()
            invariant
                0 <= i <= es.len(),
                es == self.entry_list(),
                f == |e: UtxoEntryView| e.output.pubkey == key@,
                g == |e: UtxoEntryView| (e.output, e.reserved),
                h == |p: (TransactionOutput, bool)| (p.0@, p.1),
                out@.map_values(h) == es.take(i as int).filter(f).map_values(g),
            decreases es.len() - i,
        {
            proof {
                crate::blockchain::lemma_filter_push(es.take(i as int), es[i as int], f);
                assert(es.take(i + 1) =~= es.take(i as int).push(es[i as int]));
                assert(es[i as int] == self.entries@[i as int]@);
            }
            let e = &self.entries[i];
            if *e.output.pubkey() == *key {
                let c = e.output.clone();
                let ghost cv = c@;
                let ghost before = out@;
                out.push((c, e.reserved));
                assert(out@.map_values(h) =~= before.map_values(h).push((cv, e.reserved)));
                assert(es.take(i as int).filter(f).push(es[i as int]).map_values(g) =~= es.take(i as int).filter(f).map_values(g).push(g(es[i as int])));
            }
            i += 1;
        }
        assert(es.take(i as int) =~= es);
        out
    }

    /// Position of the first entry under `h`.
    fn position(&self, h: &crate::hash::Hash) -> (r: Option<usize>)
        ensures
            r is Some <==> self@.contains_key(*h),
            r is Some ==> r->0 < self.entries@.len() && self.entries@[r->0 as int].hash == *h
                && first_entry(self.entries@.map_values(|e: UtxoEntry| e@), *h) == Some(
                self.entries@[r->0 as int]@,
            ) && forall|j: int| 0 <= j < r->0 ==> self.entries@[j].hash != *h,
    {
        let ghost s = self.entries@.map_values(|e: UtxoEntry| e@);
        assert(s.skip(0) =~= s);
        let mut i: usize = 0;
        while i < self.entries.len()
            invariant
                0 <= i <= self.entries@.len(),
                s == self.entries@.map_values(|e: UtxoEntry| e@),
                first_entry(s, *h) == first_entry(s.skip(i as int), *h),
                forall|j: int| 0 <= j < i ==> self.entries@[j].hash != *h,
            decreases self.entries@.len() - i,
        {
            assert(s.skip(i as int)[0] == s[i as int]);
            assert(s.skip(i as int).skip(1) =~= s.skip(i + 1));
            if self.entries[i].hash == *h {
                return Some(i);
            }
            i += 1;
        }
        assert(s.skip(i as int).len() == 0);
        None
    }

    /// The reservation flag and output under `h`.
    pub fn get(&self, h: &crate::hash::Hash) -> (r: Option<&UtxoEntry>)
        ensures
            r is Some <==> self@.contains_key(*h),
            r is Some ==> r->0.hash == *h && (r->0.reserved, r->0.output@) == self@[*h],
    {
        match self.position(h) {
            Some(i) => Some(&self.entries[i]),
            None => None,
        }
    }

    pub fn contains_key(&self, h: &crate::hash::Hash) -> (r: bool)
        ensures
            r == self@.contains_key(*h),
    {
        self.position(h).is_some()
    }

    /// Puts `output` under `h`, replacing what was there.
    pub fn insert(&mut self, h: crate::hash::Hash, reserved: bool, output: TransactionOutput)
        ensures
            final(self)@ == old(self)@.insert(h, (reserved, output@)),
    {
        self.remove(&h);
        let ghost s = self.entries@.map_values(|e: UtxoEntry| e@);
        let ghost ov = output@;
        let e = UtxoEntry { hash: h, reserved, output };
        let ghost ev = e@;
        self.entries.push(e);
        proof {
            assert(self.entries@.map_values(|e: UtxoEntry| e@) =~= s.push(ev));
            assert(entries_map(s) == old(self)@.remove(h));
            assert forall|k: crate::hash::Hash| #[trigger] first_entry(s.push(ev), k) == (if first_entry(s, k) is Some {
                first_entry(s, k)
            } else if ev.hash == k {
                Some(ev)
            } else {
                None
            }) by {
                lemma_first_entry_push(s, ev, k);
            }
            assert(!entries_map(s).contains_key(h));
            assert(first_entry(s, h) is None);
            assert(self@ == entries_map(s.push(ev)));
            assert(ev.hash == h && ev.reserved == reserved && ev.output == ov);
            let target = old(self)@.insert(h, (reserved, ov));
            assert forall|k: crate::hash::Hash| #[trigger] self@.contains_key(k) == target.contains_key(k) by {
                assert(entries_map(s).contains_key(k) == (first_entry(s, k) is Some));
                assert(self@.contains_key(k) == (first_entry(s.push(ev), k) is Some));
            }
            assert forall|k: crate::hash::Hash| self@.contains_key(k) implies #[trigger] self@[k] == target[k] by {
                assert(entries_map(s).contains_key(k) == (first_entry(s, k) is Some));
                if k != h {
                    assert(entries_map(s)[k] == old(self)@[k]);
                }
            }
        }
        assert(final(self)@ =~= old(self)@.insert(h, (reserved, ov)));
    }

    /// Drops what is under `h`.
    pub fn remove(&mut self, h: &crate::hash::Hash)
        ensures
            final(self)@ == old(self)@.remove(*h),
    {
        let ghost s = self.entries@.map_values(|e: UtxoEntry| e@);
        let ghost f = |e: UtxoEntryView| e.hash != *h;
        let mut kept: Vec<UtxoEntry> = Vec::new();
        let mut i: usize = 0;
        while i < self.entries.len()
            invariant
                0 <= i <= self.entries@.len(),
                s == self.entries@.map_values(|e: UtxoEntry| e@),
                f == |e: UtxoEntryView| e.hash != *h,
                kept@.map_values(|e: UtxoEntry| e@) == s.take(i as int).filter(f),
            decreases self.entries@.len() - i,
        {
            proof {
                assert(s.take(i + 1) =~= s.take(i as int).push(s[i as int]));
                Seq::filter_distributes_over_add(s.take(i as int), seq![s[i as int]], f);
                assert(s.take(i as int) + seq![s[i as int]] =~= s.take(i as int).push(s[i as int]));
                reveal(Seq::filter);
                assert(seq![s[i as int]].drop_last() =~= Seq::<UtxoEntryView>::empty());
                assert(Seq::<UtxoEntryView>::empty().filter(f) =~= Seq::<UtxoEntryView>::empty());
            }
            if self.entries[i].hash != *h {
                let ghost before = kept@;
                let c = self.entries[i].clone();
                kept.push(c);
                proof {
                    assert(seq![s[i as int]].filter(f) =~= seq![s[i as int]]);
                    assert(kept@.map_values(|e: UtxoEntry| e@) =~= before.map_values(|e: UtxoEntry| e@).push(c@));
                    assert(s.take(i as int).filter(f) + seq![s[i as int]] =~= s.take(i as int).filter(f).push(s[i as int]));
                }
            } else {
                proof {
                    assert(seq![s[i as int]].filter(f) =~= Seq::<UtxoEntryView>::empty());
                    assert(s.take(i as int).filter(f) + Seq::<UtxoEntryView>::empty() =~= s.take(i as int).filter(f));
                }
            }
            i += 1;
        }
        assert(s.take(i as int) =~= s);
        assert(kept@.map_values(|e: UtxoEntry| e@) == s.filter(f));
        self.entries = kept;
        proof {
            assert forall|k: crate::hash::Hash| #[trigger] first_entry(s.filter(f), k) == (if k == *h {
                None
            } else {
                first_entry(s, k)
            }) by {
                lemma_first_entry_without(s, *h, k);
            }
        }
        assert(final(self)@ =~= old(self)@.remove(*h));
    }

    /// Sets the reservation flag of what is under `h`, if anything is.
    pub fn set_reserved(&mut self, h: &crate::hash::Hash, flag: bool)
        ensures
            final(self)@ == if old(self)@.contains_key(*h) {
                old(self)@.insert(*h, (flag, old(self)@[*h].1))
            } else {
                old(self)@
            },
    {
        match self.position(h) {
            Some(i) => {
                let ghost s = self.entries@.map_values(|e: UtxoEntry| e@);
                let old_entry = self.entries[i].clone();
                let e = UtxoEntry { hash: old_entry.hash, reserved: flag, output: old_entry.output };
                self.entries.set(i, e);
                proof {
                    let ne = UtxoEntryView { reserved: flag, ..s[i as int] };
                    let s2 = s.update(i as int, ne);
                    assert(self.entries@.map_values(|e: UtxoEntry| e@) =~= s2);
                    assert forall|k: crate::hash::Hash| #[trigger] first_entry(s2, k) == (if k == s[i as int].hash {
                        Some(ne)
                    } else {
                        first_entry(s, k)
                    }) by {
                        lemma_first_entry_update(s, i as int, flag, k);
                    }
                }
                assert(final(self)@ =~= old(self)@.insert(*h, (flag, old(self)@[*h].1)));
            },
            None => {},
        }
    }

    pub fn clear(&mut self)
        ensures
            final(self)@ == Map::<crate::hash::Hash, (bool, OutputView)>::empty(),
    {
        self.entries = Vec::new();
        assert(final(self)@ =~= Map::<crate::hash::Hash, (bool, OutputView)>::empty());
    }

    /// How many entries are held.
    pub closed spec fn entry_count(&self) -> nat {
        self.entries@.len()
    }

    pub fn len(&self) -> (r: usize)
        ensures
            r == self.entry_count(),
    {
        self.entries.len()
    }
}

} // verus!
