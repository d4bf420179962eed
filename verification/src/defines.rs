use std::path::PathBuf;
use vstd::prelude::*;

use crate::macros::{MacroDefinition, MacroDefinitionView};
use crate::preprocessed::copy_path;

verus! {

/// What a macro name is defined as: `None` for a name defined without a
/// macro (such as one given on the command line), or the macro with the file
/// that defines it.
pub type MacroEntry = Option<(MacroDefinition, PathBuf)>;

/// Abstract value of a [`MacroEntry`].
pub open spec fn entry_view(e: MacroEntry) -> Option<(MacroDefinitionView, PathBuf)> {
    match e {
        Some((d, p)) => Some((d@, p)),
        None => None,
    }
}

/// The macros defined so far, by name.
pub struct MacroTable {
    entries: Vec<(String, MacroEntry)>,
}

/// No two entries share a name.
pub closed spec fn names_unique(es: Seq<(String, MacroEntry)>) -> bool {
    forall|i: int, j: int| 0 <= i < j < es.len() ==> (#[trigger] es[i]).0@ != (#[trigger] es[j]).0@
}

/// Whether some entry is named `k`.
pub closed spec fn has_name(es: Seq<(String, MacroEntry)>, k: Seq<char>) -> bool {
    exists|i: int| 0 <= i < es.len() && (#[trigger] es[i]).0@ == k
}

/// The map from names to definitions that the entries hold.
pub closed spec fn table_map(es: Seq<(String, MacroEntry)>) -> Map<Seq<char>, Option<(MacroDefinitionView, PathBuf)>> {
    Map::new(
        |k: Seq<char>| has_name(es, k),
        |k: Seq<char>| entry_view(es[choose|i: int| 0 <= i < es.len() && (#[trigger] es[i]).0@ == k].1),
    )
}

proof fn lemma_table_entry(es: Seq<(String, MacroEntry)>, i: int)
    requires
        names_unique(es),
        0 <= i < es.len(),
    ensures
        table_map(es).dom().contains(es[i].0@),
        table_map(es)[es[i].0@] == entry_view(es[i].1),
{
    let k = es[i].0@;
    assert(has_name(es, k));
    let j = choose|j: int| 0 <= j < es.len() && (#[trigger] es[j]).0@ == k;
    if j < i {
        assert(es[j].0@ != es[i].0@);
    } else if i < j {
        assert(es[i].0@ != es[j].0@);
    }
}

impl View for MacroTable {
    type V = Map<Seq<char>, Option<(MacroDefinitionView, PathBuf)>>;

    closed spec fn view(&self) -> Self::V {
        table_map(self.entries@)
    }
}

/// A copy of a macro definition.
fn copy_definition(d: &MacroDefinition) -> (r: MacroDefinition)
    ensures
        r@ == d@,
{
    let mut params: Vec<(String, Option<String>)> = Vec::new();
    let n = d.params.len();
    for i in 0..n
        invariant
            n == d.params.len(),
            params.deep_view() == d.params.deep_view().take(i as int),
    {
        let (name, default) = &d.params[i];
        let default_copy = match default {
            Some(t) => Some(t.clone()),
            None => None,
        };
        let ghost before = params.deep_view();
        params.push((name.clone(), default_copy));
        proof {
            assert(params.deep_view() =~= before.push(d.params.deep_view()[i as int]));
            assert(d.params.deep_view().take(i + 1) =~= d.params.deep_view().take(i as int).push(
                d.params.deep_view()[i as int],
            ));
        }
    }
    proof {
        assert(d.params.deep_view().take(n as int) =~= d.params.deep_view());
    }
    let body = match &d.body {
        Some((t, r)) => Some((t.clone(), *r)),
        None => None,
    };
    MacroDefinition { params, body }
}

/// A copy of a table entry.
fn copy_entry(e: &MacroEntry) -> (r: MacroEntry)
    ensures
        entry_view(r) == entry_view(*e),
{
    match e {
        Some((d, p)) => Some((copy_definition(d), copy_path(p))),
        None => None,
    }
}

impl MacroTable {
    /// Names are unique.
    pub closed spec fn wf(&self) -> bool {
        names_unique(self.entries@)
    }

    /// An empty table.
    pub fn new() -> (r: Self)
        ensures
            r.wf(),
            r@ == Map::<Seq<char>, Option<(MacroDefinitionView, PathBuf)>>::empty(),
    {
        let r = MacroTable { entries: Vec::new() };
        assert(r@ =~= Map::<Seq<char>, Option<(MacroDefinitionView, PathBuf)>>::empty());
        r
    }

    /// Position of the entry named `name`.
    fn find(&self, name: &String) -> (r: Option<usize>)
        ensures
            match r {
                Some(i) => i < self.entries@.len() && self.entries@[i as int].0@ == name@,
                None => !has_name(self.entries@, name@),
            },
    {
        let n = self.entries.len();
        for i in 0..n
            invariant
                n == self.entries@.len(),
                forall|j: int| 0 <= j < i ==> (#[trigger] self.entries@[j]).0@ != name@,
        {
            if self.entries[i].0 == *name {
                return Some(i);
            }
        }
        None
    }

    /// Whether `name` is defined.
    pub fn contains(&self, name: &String) -> (b: bool)
        requires
            self.wf(),
        ensures
            b == self@.dom().contains(name@),
    {
        self.find(name).is_some()
    }

    /// What `name` is defined as, if it is defined.
    pub fn get(&self, name: &String) -> (r: Option<&MacroEntry>)
        requires
            self.wf(),
        ensures
            match r {
                Some(e) => self@.dom().contains(name@) && self@[name@] == entry_view(*e),
                None => !self@.dom().contains(name@),
            },
    {
        match self.find(name) {
            Some(i) => {
                proof {
                    lemma_table_entry(self.entries@, i as int);
                }
                Some(&self.entries[i].1)
            },
            None => None,
        }
    }

    /// Defines `name` as `value`, replacing what it was defined as.
    pub fn insert(&mut self, name: String, value: MacroEntry)
        requires
            old(self).wf(),
        ensures
            final(self).wf(),
            final(self)@ == old(self)@.insert(name@, entry_view(value)),
    {
        let ghost old_es = self.entries@;
        let ghost k = name@;
        let ghost v = entry_view(value);
        match self.find(&name) {
            Some(i) => {
                self.entries.set(i, (name, value));
                proof {
                    let es = self.entries@;
                    assert forall|a: int, b: int| 0 <= a < b < es.len() implies (#[trigger] es[a]).0@
                        != (#[trigger] es[b]).0@ by {
                        if a != i && b != i {
                            assert(old_es[a].0@ != old_es[b].0@);
                        } else if a == i {
                            assert(old_es[i as int].0@ != old_es[b].0@);
                        } else {
                            assert(old_es[a].0@ != old_es[i as int].0@);
                        }
                    }
                    assert forall|q: Seq<char>| #![trigger has_name(es, q)] has_name(es, q) == (has_name(old_es, q) || q == k) by {
                        if has_name(old_es, q) {
                            let j = choose|j: int| 0 <= j < old_es.len() && (#[trigger] old_es[j]).0@ == q;
                            assert(es[j].0@ == q);
                        }
                        if has_name(es, q) {
                            let j = choose|j: int| 0 <= j < es.len() && (#[trigger] es[j]).0@ == q;
                            assert(old_es[j].0@ == q);
                        }
                        if q == k {
                            assert(es[i as int].0@ == q);
                        }
                    }
                    assert forall|q: Seq<char>| #[trigger] table_map(es).dom().contains(q) implies table_map(es)[q]
                        == map_with(old_es, k, v)[q] by {
                        let j = choose|j: int| 0 <= j < es.len() && (#[trigger] es[j]).0@ == q;
                        lemma_table_entry(es, j);
                        if j != i {
                            lemma_table_entry(old_es, j);
                            assert(old_es[j] == es[j]);
                        }
                    }
                    assert(table_map(es) =~= map_with(old_es, k, v));
                }
            },
            None => {
                self.entries.push((name, value));
                proof {
                    let es = self.entries@;
                    let last = es.len() - 1;
                    assert forall|a: int, b: int| 0 <= a < b < es.len() implies (#[trigger] es[a]).0@
                        != (#[trigger] es[b]).0@ by {
                        if b < last {
                            assert(old_es[a].0@ != old_es[b].0@);
                        } else {
                            assert(old_es[a] == es[a]);
                        }
                    }
                    assert forall|q: Seq<char>| #![trigger has_name(es, q)] has_name(es, q) == (has_name(old_es, q) || q == k) by {
                        if has_name(old_es, q) {
                            let j = choose|j: int| 0 <= j < old_es.len() && (#[trigger] old_es[j]).0@ == q;
                            assert(es[j].0@ == q);
                        }
                        if has_name(es, q) {
                            let j = choose|j: int| 0 <= j < es.len() && (#[trigger] es[j]).0@ == q;
                            if j < last {
                                assert(old_es[j].0@ == q);
                            }
                        }
                        if q == k {
                            assert(es[last].0@ == q);
                        }
                    }
                    assert forall|q: Seq<char>| #[trigger] table_map(es).dom().contains(q) implies table_map(es)[q]
                        == map_with(old_es, k, v)[q] by {
                        let j = choose|j: int| 0 <= j < es.len() && (#[trigger] es[j]).0@ == q;
                        lemma_table_entry(es, j);
                        if j != last {
                            lemma_table_entry(old_es, j);
                            assert(old_es[j] == es[j]);
                        }
                    }
                    assert(table_map(es) =~= map_with(old_es, k, v));
                }
            },
        }
    }

    /// Undefines `name`.
    pub fn remove(&mut self, name: &String)
        requires
            old(self).wf(),
        ensures
            final(self).wf(),
            final(self)@ == old(self)@.remove(name@),
    {
        let ghost old_es = self.entries@;
        let ghost k = name@;
        match self.find(name) {
            Some(i) => {
                self.entries.remove(i);
                proof {
                    let es = self.entries@;
                    assert forall|a: int| 0 <= a < es.len() implies #[trigger] es[a] == old_es[if a < i {
                        a
                    } else {
                        a + 1
                    }] by {}
                    assert forall|a: int, b: int| 0 <= a < b < es.len() implies (#[trigger] es[a]).0@
                        != (#[trigger] es[b]).0@ by {
                        let oa = if a < i { a } else { a + 1 };
                        let ob = if b < i { b } else { b + 1 };
                        assert(es[a] == old_es[oa]);
                        assert(es[b] == old_es[ob]);
                        assert(old_es[oa].0@ != old_es[ob].0@);
                    }
                    assert forall|q: Seq<char>| #![trigger has_name(es, q)] has_name(es, q) == (has_name(old_es, q) && q != k) by {
                        if has_name(old_es, q) && q != k {
                            let j = choose|j: int| 0 <= j < old_es.len() && (#[trigger] old_es[j]).0@ == q;
                            assert(j != i);
                            let a = if j < i { j } else { j - 1 };
                            assert(es[a] == old_es[j]);
                        }
                        if has_name(es, q) {
                            let a = choose|a: int| 0 <= a < es.len() && (#[trigger] es[a]).0@ == q;
                            let oa = if a < i { a } else { a + 1 };
                            assert(es[a] == old_es[oa]);
                            assert(old_es[oa].0@ != old_es[i as int].0@);
                        }
                    }
                    assert forall|q: Seq<char>| #[trigger] table_map(es).dom().contains(q) implies table_map(es)[q]
                        == table_map(old_es)[q] by {
                        let a = choose|a: int| 0 <= a < es.len() && (#[trigger] es[a]).0@ == q;
                        let oa = if a < i { a } else { a + 1 };
                        assert(es[a] == old_es[oa]);
                        lemma_table_entry(es, a);
                        lemma_table_entry(old_es, oa);
                    }
                    assert(table_map(es) =~= table_map(old_es).remove(k));
                }
            },
            None => {
                proof {
                    assert(table_map(old_es) =~= table_map(old_es).remove(k));
                }
            },
        }
    }

    /// Undefines every name.
    pub fn clear(&mut self)
        requires
            old(self).wf(),
        ensures
            final(self).wf(),
            final(self)@ == Map::<Seq<char>, Option<(MacroDefinitionView, PathBuf)>>::empty(),
    {
        self.entries.clear();
        assert(self@ =~= Map::<Seq<char>, Option<(MacroDefinitionView, PathBuf)>>::empty());
    }

    /// A copy of the table.
    pub fn duplicate(&self) -> (r: MacroTable)
        requires
            self.wf(),
        ensures
            r.wf(),
            r@ == self@,
    {
        let mut entries: Vec<(String, MacroEntry)> = Vec::new();
        let n = self.entries.len();
        for i in 0..n
            invariant
                n == self.entries@.len(),
                entries@.len() == i,
                forall|j: int| 0 <= j < i ==> (#[trigger] entries@[j]).0@ == self.entries@[j].0@
                    && entry_view(entries@[j].1) == entry_view(self.entries@[j].1),
        {
            let e = &self.entries[i];
            entries.push((e.0.clone(), copy_entry(&e.1)));
        }
        let r = MacroTable { entries };
        proof {
            let es = r.entries@;
            let os = self.entries@;
            assert forall|a: int, b: int| 0 <= a < b < es.len() implies (#[trigger] es[a]).0@
                != (#[trigger] es[b]).0@ by {
                assert(os[a].0@ != os[b].0@);
            }
            assert forall|q: Seq<char>| #![trigger has_name(es, q)] has_name(es, q) == has_name(os, q) by {
                if has_name(es, q) {
                    let j = choose|j: int| 0 <= j < es.len() && (#[trigger] es[j]).0@ == q;
                    assert(os[j].0@ == q);
                }
                if has_name(os, q) {
                    let j = choose|j: int| 0 <= j < os.len() && (#[trigger] os[j]).0@ == q;
                    assert(es[j].0@ == q);
                }
            }
            assert forall|q: Seq<char>| #[trigger] table_map(es).dom().contains(q) implies table_map(es)[q]
                == table_map(os)[q] by {
                let j = choose|j: int| 0 <= j < es.len() && (#[trigger] es[j]).0@ == q;
                lemma_table_entry(es, j);
                lemma_table_entry(os, j);
            }
            assert(table_map(es) =~= table_map(os));
        }
        r
    }
}

/// The map of `es` with `k` defined as `v`.
spec fn map_with(
    es: Seq<(String, MacroEntry)>,
    k: Seq<char>,
    v: Option<(MacroDefinitionView, PathBuf)>,
) -> Map<Seq<char>, Option<(MacroDefinitionView, PathBuf)>> {
    table_map(es).insert(k, v)
}

} // verus!
