//! The resolver's output map: needed names to outcomes, ordered by name.

use crate::summarize::{ElfSummary, ElfSummaryModel};
use crate::text::{lemma_lex_lt_connected, lemma_lex_lt_trans, lex_lt, string_eq, string_lt};
use vstd::prelude::*;

verus! {

/// The resolver's output: needed names mapped to their outcomes, ordered
/// strictly by name. A key maps to `None` exactly when no search-path
/// directory held a readable ELF under that name.
pub struct DependencyMap {
    pub entries: Vec<(String, Option<ElfSummary>)>,
}

impl View for DependencyMap {
    type V = Seq<(Seq<char>, Option<ElfSummaryModel>)>;

    open spec fn view(&self) -> Seq<(Seq<char>, Option<ElfSummaryModel>)> {
        self.entries@.map_values(
            |e: (String, Option<ElfSummary>)|
                (
                    e.0@,
                    match e.1 {
                        Option::Some(s) => Option::Some(s@),
                        Option::None => Option::None,
                    },
                ),
        )
    }
}

impl DependencyMap {
    /// The keys, in iteration order.
    pub open spec fn key_seq(self) -> Seq<Seq<char>> {
        self@.map_values(|e: (Seq<char>, Option<ElfSummaryModel>)| e.0)
    }

    /// The keys are strictly sorted in lexicographic order; in particular
    /// no key repeats.
    pub open spec fn wf(self) -> bool {
        forall|i: int, j: int|
            0 <= i < j < self.key_seq().len() ==> lex_lt(self.key_seq()[i], self.key_seq()[j])
    }

    /// Whether `k` is among the keys.
    pub open spec fn contains_key(self, k: Seq<char>) -> bool {
        exists|i: int| 0 <= i < self@.len() && self@[i].0 == k
    }

    pub fn new() -> (m: DependencyMap)
        ensures
            m.wf(),
            m@ == Seq::<(Seq<char>, Option<ElfSummaryModel>)>::empty(),
    {
        let m = DependencyMap { entries: Vec::new() };
        proof {
            assert(m@ =~= Seq::<(Seq<char>, Option<ElfSummaryModel>)>::empty());
        }
        m
    }

    pub fn len(&self) -> (n: usize)
        ensures
            n == self@.len(),
    {
        self.entries.len()
    }

    /// Whether the map holds an entry under `name`.
    pub fn contains(&self, name: &String) -> (r: bool)
        ensures
            r == self.contains_key(name@),
    {
        let mut i: usize = 0;
        while i < self.entries.len()
            invariant
                i <= self@.len(),
                self@.len() == self.entries@.len(),
                forall|j: int| 0 <= j < i ==> self@[j].0 != name@,
            decreases self@.len() - i,
        {
            if string_eq(&self.entries[i].0, name) {
                assert(self@[i as int].0 == name@);
                return true;
            }
            i = i + 1;
        }
        false
    }

    /// Inserts a new entry at its place in the name order.
    pub fn insert(&mut self, name: String, value: Option<ElfSummary>)
        requires
            old(self).wf(),
            !old(self).contains_key(name@),
        ensures
            final(self).wf(),
            final(self)@.len() == old(self)@.len() + 1,
            ({
                let vm = match value {
                    Option::Some(s) => Option::Some(s@),
                    Option::None => Option::None,
                };
                exists|p: int|
                    0 <= p <= old(self)@.len() && final(self)@ == old(self)@.subrange(0, p).push(
                        (name@, vm),
                    ) + old(self)@.subrange(p, old(self)@.len() as int)
            }),
    {
        let ghost before = self@;
        let ghost vm = match &value {
            Option::Some(s) => Option::Some(s@),
            Option::None => Option::None,
        };
        let mut p: usize = 0;
        while p < self.entries.len() && string_lt(&self.entries[p].0, &name)
            invariant
                self@ == before,
                p <= self@.len(),
                self@.len() == self.entries@.len(),
                forall|j: int| 0 <= j < p ==> lex_lt(self@[j].0, name@),
            decreases self@.len() - p,
        {
            p = p + 1;
        }
        assert(p < self.entries@.len() ==> !lex_lt(self@[p as int].0, name@));
        self.entries.insert(p, (name, value));
        proof {
            assert forall|a: int, b: int|
                0 <= a < b < before.len() implies lex_lt(before[a].0, before[b].0) by {
                assert(old(self).key_seq()[a] == before[a].0);
                assert(old(self).key_seq()[b] == before[b].0);
            }
            assert(self@ =~~= before.subrange(0, p as int).push((name@, vm)) + before.subrange(
                p as int,
                before.len() as int,
            ));
            let now = self@;
            assert forall|i: int, j: int|
                0 <= i < j < now.len() implies lex_lt(now[i].0, now[j].0) by {
                if j < p {
                    assert(now[i].0 == before[i].0 && now[j].0 == before[j].0);
                } else if i > p {
                    assert(now[i].0 == before[i - 1].0 && now[j].0 == before[j - 1].0);
                } else if i < p && j == p {
                    assert(now[i].0 == before[i].0 && now[j].0 == name@);
                } else if i == p {
                    assert(now[i].0 == name@ && now[j].0 == before[j - 1].0);
                    assert(j - 1 >= p);
                    lemma_new_key_before(before, name@, j - 1, p as int);
                } else {
                    assert(i < p && j > p);
                    assert(now[i].0 == before[i].0 && now[j].0 == before[j - 1].0);
                    assert(lex_lt(before[i].0, name@));
                    lemma_new_key_before(before, name@, j - 1, p as int);
                    lemma_lex_lt_trans(before[i].0, name@, before[j - 1].0);
                }
            }
            assert forall|i: int, j: int|
                0 <= i < j < self.key_seq().len() implies lex_lt(
                self.key_seq()[i],
                self.key_seq()[j],
            ) by {
                assert(self.key_seq()[i] == now[i].0);
                assert(self.key_seq()[j] == now[j].0);
            }
        }
    }

}

/// In a well-formed map no key repeats: the same needed name is never
/// recorded twice, however many images requested it.
pub proof fn lemma_wf_keys_unique(m: DependencyMap)
    requires
        m.wf(),
    ensures
        forall|i: int, j: int| 0 <= i < j < m@.len() ==> m@[i].0 != m@[j].0,
{
    assert forall|i: int, j: int| 0 <= i < j < m@.len() implies m@[i].0 != m@[j].0 by {
        assert(m.key_seq()[i] == m@[i].0);
        assert(m.key_seq()[j] == m@[j].0);
        if m@[i].0 == m@[j].0 {
            crate::text::lemma_lex_lt_irrefl(m@[i].0);
        }
    }
}

/// In a strictly sorted map where `name` is absent and not ordered after
/// the entry at `p`, every entry at or after `p` is ordered after `name`.
proof fn lemma_new_key_before(
    before: Seq<(Seq<char>, Option<ElfSummaryModel>)>,
    name: Seq<char>,
    j: int,
    p: int,
)
    requires
        forall|a: int, b: int| 0 <= a < b < before.len() ==> lex_lt(before[a].0, before[b].0),
        forall|a: int| 0 <= a < before.len() ==> before[a].0 != name,
        0 <= p <= j < before.len(),
        !lex_lt(before[p].0, name),
    ensures
        lex_lt(name, before[j].0),
{
    if !lex_lt(name, before[p].0) {
        lemma_lex_lt_connected(before[p].0, name);
        assert(false);
    }
    if j > p {
        lemma_lex_lt_trans(name, before[p].0, before[j].0);
    }
}

} // verus!
