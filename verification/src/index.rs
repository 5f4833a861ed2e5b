//! The inverted index: from a kind of event to the rules that mention it.

use crate::ast::{refs_are_mentions, KeyView, Rule, RuleView};
use vstd::hash_map::StringHashMap;
use vstd::prelude::*;

verus! {

/// The positions of the rules that mention a kind of event, in ascending order.
pub open spec fn mentioning(rules: Seq<RuleView>, key: KeyView) -> Seq<usize>
    decreases rules.len(),
{
    if rules.len() == 0 {
        Seq::empty()
    } else {
        let before = mentioning(rules.drop_last(), key);
        if rules.last().mentions(key) {
            before.push((rules.len() - 1) as usize)
        } else {
            before
        }
    }
}

/// The index finds every rule that mentions a kind of event and no other, each
/// once, in ascending order.
pub proof fn mentioning_is_exact(rules: Seq<RuleView>, key: KeyView)
    requires
        rules.len() <= usize::MAX,
    ensures
        forall|i: int|
            0 <= i < rules.len() ==> (#[trigger] rules[i].mentions(key) <==> mentioning(
                rules,
                key,
            ).contains(i as usize)),
        forall|k: int|
            0 <= k < mentioning(rules, key).len() ==> (#[trigger] mentioning(rules, key)[k])
                < rules.len(),
        forall|j: int, k: int|
            0 <= j < k < mentioning(rules, key).len() ==> (#[trigger] mentioning(rules, key)[j])
                < (#[trigger] mentioning(rules, key)[k]),
    decreases rules.len(),
{
    if rules.len() > 0 {
        let rest = rules.drop_last();
        let n = rest.len() as int;
        let before = mentioning(rest, key);
        let all = mentioning(rules, key);
        mentioning_is_exact(rest, key);
        if rules.last().mentions(key) {
            assert(all[before.len() as int] == n as usize);
        }
        assert forall|i: int| 0 <= i < rules.len() implies (#[trigger] rules[i].mentions(key)
            <==> all.contains(i as usize)) by {
            if i < n {
                assert(rest[i] == rules[i]);
                if before.contains(i as usize) {
                    let k = choose|k: int| 0 <= k < before.len() && before[k] == i as usize;
                    assert(all[k] == i as usize);
                }
                if all.contains(i as usize) {
                    let k = choose|k: int| 0 <= k < all.len() && all[k] == i as usize;
                    assert(before[k] == i as usize);
                }
            } else if all.contains(i as usize) {
                let k = choose|k: int| 0 <= k < all.len() && all[k] == i as usize;
                if k < before.len() {
                    assert(before[k] < n);
                }
            }
        }
    }
}

/// Rule positions by the kind of event that the rules mention.
pub struct RuleIndex {
    modules: StringHashMap<usize>,
    /// For each module, the place of the bucket of each of its event types.
    events: Vec<StringHashMap<usize>>,
    buckets: Vec<Vec<usize>>,
}

impl RuleIndex {
    closed spec fn has(&self, key: KeyView) -> bool {
        self.modules@.contains_key(key.0) && self.events@[self.modules@[key.0] as int]@.contains_key(
            key.1,
        )
    }

    closed spec fn place(&self, key: KeyView) -> usize {
        self.events@[self.modules@[key.0] as int]@[key.1]
    }

    /// Every kind of event has a place of its own.
    pub closed spec fn wf(&self) -> bool {
        &&& forall|m: Seq<char>| #[trigger]
            self.modules@.contains_key(m) ==> self.modules@[m] < self.events@.len()
        &&& forall|m: Seq<char>, k: Seq<char>|
            #![trigger self.modules@[m], self.modules@[k]]
            self.modules@.contains_key(m) && self.modules@.contains_key(k) && m != k
                ==> self.modules@[m] != self.modules@[k]
        &&& forall|key: KeyView| #[trigger] self.has(key) ==> self.place(key) < self.buckets@.len()
        &&& forall|key: KeyView, other: KeyView|
            #![trigger self.place(key), self.place(other)]
            self.has(key) && self.has(other) && key != other ==> self.place(key) != self.place(
                other,
            )
    }

    /// The positions recorded for each kind of event.
    pub closed spec fn entries(&self) -> Map<KeyView, Seq<usize>> {
        Map::new(
            |key: KeyView| self.has(key),
            |key: KeyView| self.buckets@[self.place(key) as int]@,
        )
    }

    /// An index that records nothing.
    pub fn new() -> (r: RuleIndex)
        ensures
            r.wf(),
            r.entries() == Map::<KeyView, Seq<usize>>::empty(),
    {
        let r = RuleIndex {
            modules: StringHashMap::new(),
            events: Vec::new(),
            buckets: Vec::new(),
        };
        assert(r.entries() =~= Map::<KeyView, Seq<usize>>::empty());
        r
    }

    /// The positions recorded for a kind of event.
    pub fn get(&self, module: &str, event_type: &str) -> (r: Option<&Vec<usize>>)
        requires
            self.wf(),
        ensures
            match r {
                Some(v) => self.entries().contains_key((module@, event_type@)) && v@
                    == self.entries()[(module@, event_type@)],
                None => !self.entries().contains_key((module@, event_type@)),
            },
    {
        let ghost key = (module@, event_type@);
        match self.modules.get(module) {
            None => {
                assert(!self.has(key));
                None
            },
            Some(m) => match self.events[*m].get(event_type) {
                None => {
                    assert(!self.has(key));
                    None
                },
                Some(place) => {
                    assert(self.has(key));
                    Some(&self.buckets[*place])
                },
            },
        }
    }

    /// Makes a place for a kind of event that has none.
    fn open(&mut self, module: &str, event_type: &str) -> (place: usize)
        requires
            old(self).wf(),
            !old(self).entries().contains_key((module@, event_type@)),
        ensures
            final(self).wf(),
            final(self).entries() == old(self).entries().insert(
                (module@, event_type@),
                Seq::empty(),
            ),
            final(self).has((module@, event_type@)),
            final(self).place((module@, event_type@)) == place,
            place < final(self).buckets@.len(),
    {
        let ghost key = (module@, event_type@);
        assert(!self.has(key));
        let m: usize = match self.modules.get(module) {
            Some(m) => *m,
            None => {
                let m: usize = self.events.len();
                self.events.push(StringHashMap::new());
                self.modules.insert(module.to_string(), m);
                m
            },
        };
        let ghost mid = *self;
        proof {
            assert forall|k: KeyView| #[trigger] mid.has(k) <==> old(self).has(k) by {
                if mid.has(k) && k.0 != module@ {
                    assert(old(self).modules@.contains_key(k.0));
                }
            }
            assert forall|k: KeyView| #[trigger] old(self).has(k) implies mid.place(k) == old(
                self,
            ).place(k) by {}
        }
        let place: usize = self.buckets.len();
        self.buckets.push(Vec::new());
        self.events[m].insert(event_type.to_string(), place);
        proof {
            assert forall|k: KeyView| #[trigger] self.has(k) <==> old(self).has(k) || k == key by {
                if k.0 != module@ && self.modules@.contains_key(k.0) {
                    assert(self.modules@[k.0] != self.modules@[module@]);
                }
                assert(mid.has(k) <==> old(self).has(k));
            }
            assert forall|k: KeyView| #[trigger] old(self).has(k) implies self.place(k) == old(
                self,
            ).place(k) by {
                if k.0 != module@ {
                    assert(self.modules@[k.0] != self.modules@[module@]);
                }
                assert(mid.has(k));
                assert(mid.place(k) == old(self).place(k));
            }
            assert(self.entries() =~= old(self).entries().insert(key, Seq::empty()));
        }
        place
    }

    /// Records a position for a kind of event, unless it is recorded already.
    pub fn record(&mut self, module: &str, event_type: &str, idx: usize)
        requires
            old(self).wf(),
        ensures
            final(self).wf(),
            final(self).entries() == old(self).entries().insert(
                (module@, event_type@),
                recorded(old(self).entries(), (module@, event_type@), idx),
            ),
    {
        let ghost key = (module@, event_type@);
        let found: Option<usize> = match self.modules.get(module) {
            None => None,
            Some(m) => match self.events[*m].get(event_type) {
                None => None,
                Some(place) => Some(*place),
            },
        };
        let place: usize = match found {
            Some(place) => {
                assert(self.has(key));
                place
            },
            None => {
                assert(!self.has(key));
                self.open(module, event_type)
            },
        };
        let ghost mid = *self;
        let mut known: bool = false;
        let mut i: usize = 0;
        while i < self.buckets[place].len()
            invariant
                *self == mid,
                place < self.buckets@.len(),
                i <= self.buckets@[place as int]@.len(),
                known == self.buckets@[place as int]@.take(i as int).contains(idx),
            decreases self.buckets@[place as int]@.len() - i,
        {
            let ghost bucket = self.buckets@[place as int]@;
            assert(bucket.take(i + 1) =~= bucket.take(i as int).push(bucket[i as int]));
            assert(bucket.take(i + 1)[i as int] == bucket[i as int]);
            if self.buckets[place][i] == idx {
                known = true;
            } else {
                assert(known ==> bucket.take(i + 1).contains(idx)) by {
                    if known {
                        let t = bucket.take(i as int);
                        let k = choose|k: int| 0 <= k < t.len() && t[k] == idx;
                        assert(bucket.take(i + 1)[k] == idx);
                    }
                }
            }
            i += 1;
        }
        assert(self.buckets@[place as int]@.take(i as int) =~= self.buckets@[place as int]@);
        if !known {
            self.buckets[place].push(idx);
        }
        proof {
            assert forall|k: KeyView| #[trigger] self.has(k) <==> mid.has(k) by {}
            assert forall|k: KeyView| #[trigger] mid.has(k) implies self.place(k) == mid.place(
                k,
            ) by {}
            let bucket = mid.buckets@[place as int]@;
            assert(bucket == mid.entries()[key]);
            assert(recorded(old(self).entries(), key, idx) =~= if known {
                bucket
            } else {
                bucket.push(idx)
            });
            assert forall|k: KeyView| #[trigger] mid.has(k) && k != key implies self.buckets@[self.place(
                k,
            ) as int]@ == old(self).entries()[k] by {
                assert(mid.place(k) != mid.place(key));
                assert(mid.entries().contains_key(k));
                assert(mid.entries()[k] == old(self).entries()[k]);
            }
            assert(self.entries().dom() =~= mid.entries().dom());
            assert(self.entries() =~= old(self).entries().insert(
                key,
                recorded(old(self).entries(), key, idx),
            ));
        }
    }
}

/// The positions of a kind of event, with one more among them.
pub open spec fn recorded(
    entries: Map<KeyView, Seq<usize>>,
    key: KeyView,
    idx: usize,
) -> Seq<usize> {
    if !entries.contains_key(key) {
        seq![idx]
    } else if entries[key].contains(idx) {
        entries[key]
    } else {
        entries[key].push(idx)
    }
}

/// The positions that are recorded for a kind of event; none where there is no
/// record.
pub open spec fn found(entries: Map<KeyView, Seq<usize>>, key: KeyView) -> Seq<usize> {
    if entries.contains_key(key) {
        entries[key]
    } else {
        Seq::empty()
    }
}

/// Every record holds some position.
spec fn none_is_empty(entries: Map<KeyView, Seq<usize>>) -> bool {
    forall|key: KeyView| #[trigger] entries.contains_key(key) ==> entries[key].len() > 0
}

/// Some of the first `n` conditions mentions this kind of event.
spec fn mentioned(rule: RuleView, n: int, key: KeyView) -> bool {
    exists|i: int| 0 <= i < n && (#[trigger] rule.conditions[i]).mentions(key)
}

/// `idx` is recorded beside the positions of the earlier rules.
spec fn beside(rules: Seq<RuleView>, key: KeyView, hit: bool, idx: usize) -> Seq<usize> {
    if hit {
        mentioning(rules, key).push(idx)
    } else {
        mentioning(rules, key)
    }
}

impl RuleIndex {
    /// The index of the given rules.
    pub fn build(rules: &Vec<Rule>) -> (r: RuleIndex)
        ensures
            r.wf(),
            forall|key: KeyView| #[trigger]
                found(r.entries(), key) == mentioning(rules.deep_view(), key),
            forall|key: KeyView| #[trigger]
                r.entries().contains_key(key) <==> mentioning(rules.deep_view(), key).len() > 0,
    {
        let ghost views = rules.deep_view();
        let mut index = RuleIndex::new();
        let mut idx: usize = 0;
        assert(views.take(0) =~= Seq::empty());
        while idx < rules.len()
            invariant
                idx <= rules@.len(),
                views == rules.deep_view(),
                index.wf(),
                none_is_empty(index.entries()),
                forall|key: KeyView| #[trigger]
                    found(index.entries(), key) == mentioning(views.take(idx as int), key),
            decreases rules@.len() - idx,
        {
            let conditions = &rules[idx].conditions;
            let ghost rule = views[idx as int];
            let mut j: usize = 0;
            while j < conditions.len()
                invariant
                    idx < rules@.len(),
                    views == rules.deep_view(),
                    conditions == rules@[idx as int].conditions,
                    rule == views[idx as int],
                    j <= conditions@.len(),
                    index.wf(),
                    none_is_empty(index.entries()),
                    forall|key: KeyView| #[trigger]
                        found(index.entries(), key) == beside(
                            views.take(idx as int),
                            key,
                            mentioned(rule, j as int, key),
                            idx,
                        ),
                decreases conditions@.len() - j,
            {
                let mut refs: Vec<(String, String)> = Vec::new();
                let ghost none = refs.deep_view();
                conditions[j].collect_event_refs(&mut refs);
                proof {
                    refs_are_mentions(conditions@[j as int].deep_view(), none);
                }
                let ghost keys = refs.deep_view();
                let mut k: usize = 0;
                assert(keys.take(0) =~= Seq::empty());
                while k < refs.len()
                    invariant
                        idx < rules@.len(),
                        views == rules.deep_view(),
                        keys == refs.deep_view(),
                        k <= refs@.len(),
                        index.wf(),
                        none_is_empty(index.entries()),
                        forall|key: KeyView| #[trigger]
                            found(index.entries(), key) == beside(
                                views.take(idx as int),
                                key,
                                mentioned(rule, j as int, key) || keys.take(k as int).contains(
                                    key,
                                ),
                                idx,
                            ),
                    decreases refs@.len() - k,
                {
                    let ghost before = index.entries();
                    let ghost this = keys[k as int];
                    index.record(refs[k].0.as_str(), refs[k].1.as_str(), idx);
                    proof {
                        let upto = keys.take(k + 1);
                        assert(upto =~= keys.take(k as int).push(this));
                        assert forall|key: KeyView| #[trigger]
                            found(index.entries(), key) == beside(
                            views.take(idx as int),
                            key,
                            mentioned(rule, j as int, key) || upto.contains(key),
                            idx,
                        ) by {
                            assert(found(before, key) == beside(
                                views.take(idx as int),
                                key,
                                mentioned(rule, j as int, key) || keys.take(k as int).contains(
                                    key,
                                ),
                                idx,
                            ));
                            mentioning_is_exact(views.take(idx as int), key);
                            let earlier = mentioning(views.take(idx as int), key);
                            assert(earlier.push(idx)[earlier.len() as int] == idx);
                            if key == this {
                                assert(upto[k as int] == key);
                            } else if upto.contains(key) {
                                let i = choose|i: int| 0 <= i < upto.len() && upto[i] == key;
                                assert(keys.take(k as int)[i] == key);
                            }
                            if keys.take(k as int).contains(key) {
                                let t = keys.take(k as int);
                                let i = choose|i: int| 0 <= i < t.len() && t[i] == key;
                                assert(upto[i] == key);
                            }
                        }
                    }
                    k += 1;
                }
                proof {
                    assert(keys.take(k as int) =~= keys);
                    assert forall|key: KeyView|
                        mentioned(rule, j + 1, key) == (mentioned(rule, j as int, key)
                            || keys.contains(key)) by {
                        let c = rule.conditions[j as int];
                        assert(c == conditions@[j as int].deep_view());
                        assert(keys.contains(key) <==> c.mentions(key));
                        if c.mentions(key) {
                            assert(rule.conditions[j as int].mentions(key));
                        }
                    }
                }
                j += 1;
            }
            proof {
                let upto = views.take(idx + 1);
                assert(upto.drop_last() =~= views.take(idx as int));
                assert forall|key: KeyView| #[trigger]
                    found(index.entries(), key) == mentioning(upto, key) by {
                    assert(rule.mentions(key) == mentioned(rule, j as int, key));
                }
            }
            idx += 1;
        }
        proof {
            assert(views.take(idx as int) =~= views);
            assert forall|key: KeyView| #[trigger]
                index.entries().contains_key(key) <==> mentioning(views, key).len() > 0 by {
                assert(found(index.entries(), key) == mentioning(views, key));
            }
        }
        index
    }
}

} // verus!
