//! The editor's workspace of configuration entries.
//!
//! Entries are named by their documents, and no two entries share a name;
//! exactly one entry is selected. Every operation keeps both facts. The
//! workspace holds each entry's name next to it. For the editor's entries
//! (`ConfigEntry`) it carries out the editor's actions: applying a draft,
//! resetting to the bundled default, copying, renaming and importing; the
//! caller checks that the documents handed to it declare valid
//! configurations.

use vstd::prelude::*;

use crate::config_entry::{default_is_applied, renamed_draft_ok, renamed_items, ConfigDocument, ConfigEntry};
use crate::config_source::{ensure_table, lemma_write_reads_back, TomlNode};
use crate::names::{contains_name, first_repeated_name, name_exists_except, name_taken, unique_name};
use crate::text::{chars_of, str_equals, string_from_chars};

verus! {

/// Why a workspace operation was refused.
#[derive(Debug, Clone, PartialEq, Eq)]
pub enum WorkspaceError {
    /// A workspace needs at least one entry.
    Empty,
    /// No entry has this index.
    InvalidIndex(usize),
    /// Another entry already has this name.
    DuplicateName(String),
}

/// Entries with unique names and one selected entry.
#[derive(Debug, Clone)]
pub struct ConfigWorkspace<E> {
    entries: Vec<E>,
    names: Vec<String>,
    selected: usize,
}

/// No two names of `names` are equal.
pub open spec fn names_distinct(names: Seq<String>) -> bool {
    forall|i: int, j: int| 0 <= i < j < names.len() ==> (#[trigger] names[i])@ != (#[trigger] names[j])@
}

impl<E> ConfigWorkspace<E> {
    /// The entries, in workspace order.
    pub closed spec fn spec_entries(&self) -> Seq<E> {
        self.entries@
    }

    /// The entry names, `spec_names()[i]` naming `spec_entries()[i]`.
    pub closed spec fn spec_names(&self) -> Seq<String> {
        self.names@
    }

    /// The index of the selected entry.
    pub closed spec fn spec_selected(&self) -> nat {
        self.selected as nat
    }

    /// One name per entry, no name twice, and the selection is an entry.
    pub open spec fn wf(&self) -> bool {
        &&& self.spec_names().len() == self.spec_entries().len()
        &&& names_distinct(self.spec_names())
        &&& self.spec_selected() < self.spec_entries().len()
    }

    /// A workspace of the given named entries, the first one selected. The
    /// first name that repeats an earlier one is refused; so is no entry at all.
    pub fn from_presets(presets: Vec<(String, E)>) -> (res: Result<Self, WorkspaceError>)
        ensures
            presets@.len() == 0 ==> res == Err::<Self, WorkspaceError>(WorkspaceError::Empty),
            res is Ok <==> presets@.len() > 0 && names_distinct(presets@.map_values(|p: (String, E)| p.0)),
            res matches Ok(ws) ==> ws.wf() && ws.spec_entries() == presets@.map_values(
                |p: (String, E)| p.1,
            ) && ws.spec_names() == presets@.map_values(|p: (String, E)| p.0)
                && ws.spec_selected() == 0,
            res matches Err(WorkspaceError::DuplicateName(n)) ==> exists|j: int|
                0 <= j < presets@.len() && n == presets@[j].0 && name_taken(
                    presets@.map_values(|p: (String, E)| p.0).take(j),
                    n@,
                ) && forall|b: int|
                    0 <= b < j ==> !name_taken(
                        presets@.map_values(|p: (String, E)| p.0).take(b),
                        (#[trigger] presets@[b]).0@,
                    ),
    {
        let ghost all = presets@;
        let ghost all_names = all.map_values(|p: (String, E)| p.0);
        let mut rest = presets;
        let mut names: Vec<String> = Vec::new();
        let mut entries: Vec<E> = Vec::new();
        while rest.len() > 0
            invariant
                all_names == all.map_values(|p: (String, E)| p.0),
                names@.len() == entries@.len(),
                all == names@.zip_with(entries@) + rest@,
            decreases rest@.len(),
        {
            let (name, entry) = rest.remove(0);
            let ghost before_names = names@;
            let ghost before_entries = entries@;
            names.push(name);
            entries.push(entry);
            proof {
                assert(names@.zip_with(entries@) =~= before_names.zip_with(before_entries).push(
                    (name, entry),
                ));
            }
        }
        proof {
            assert(rest@ =~= Seq::<(String, E)>::empty());
            assert(all =~= names@.zip_with(entries@));
            assert(names@ =~= all_names);
            assert(entries@ =~= all.map_values(|p: (String, E)| p.1));
        }
        match first_repeated_name(&names) {
            Some(j) => {
                let n = names[j].clone();
                proof {
                    assert(!names_distinct(all_names)) by {
                        let i = choose|i: int|
                            0 <= i < names@.take(j as int).len() && (#[trigger] names@.take(
                                j as int,
                            )[i])@ == names@[j as int]@;
                        assert(names@[i] == names@.take(j as int)[i]);
                    }
                    assert(n == all[j as int].0);
                }
                return Err(WorkspaceError::DuplicateName(n));
            },
            None => {},
        }
        if entries.len() == 0 {
            return Err(WorkspaceError::Empty);
        }
        Ok(ConfigWorkspace { entries, names, selected: 0 })
    }

    /// The entries, in workspace order.
    pub fn entries(&self) -> (e: &Vec<E>)
        ensures
            e@ == self.spec_entries(),
    {
        &self.entries
    }

    /// The entry names, in workspace order.
    pub fn names(&self) -> (n: &Vec<String>)
        ensures
            n@ == self.spec_names(),
    {
        &self.names
    }

    /// The index of the entry named `name`, if any.
    pub fn index_by_name(&self, name: &str) -> (r: Option<usize>)
        requires
            self.wf(),
        ensures
            r matches Some(i) ==> i < self.spec_names().len() && self.spec_names()[i as int]@ == name@,
            r is None ==> !name_taken(self.spec_names(), name@),
    {
        let mut i: usize = 0;
        while i < self.names.len()
            invariant
                0 <= i <= self.names@.len(),
                forall|j: int| 0 <= j < i ==> (#[trigger] self.names@[j])@ != name@,
            decreases self.names@.len() - i,
        {
            if crate::text::str_equals(self.names[i].as_str(), name) {
                return Some(i);
            }
            i = i + 1;
        }
        None
    }

    /// The index of the selected entry.
    pub fn selected_index(&self) -> (i: usize)
        ensures
            i == self.spec_selected(),
    {
        self.selected
    }

    /// The selected entry.
    pub fn selected(&self) -> (e: &E)
        requires
            self.wf(),
        ensures
            *e == self.spec_entries()[self.spec_selected() as int],
    {
        &self.entries[self.selected]
    }

    /// The name of the selected entry.
    pub fn selected_name(&self) -> (n: &String)
        requires
            self.wf(),
        ensures
            *n == self.spec_names()[self.spec_selected() as int],
    {
        &self.names[self.selected]
    }

    /// Selects the entry at `index`; an index past the last entry is refused.
    pub fn select(&mut self, index: usize) -> (res: Result<(), WorkspaceError>)
        requires
            old(self).wf(),
        ensures
            final(self).wf(),
            final(self).spec_entries() == old(self).spec_entries(),
            final(self).spec_names() == old(self).spec_names(),
            index < old(self).spec_entries().len() ==> res is Ok && final(self).spec_selected()
                == index,
            index >= old(self).spec_entries().len() ==> res == Err::<(), WorkspaceError>(
                WorkspaceError::InvalidIndex(index),
            ) && final(self).spec_selected() == old(self).spec_selected(),
    {
        if index >= self.entries.len() {
            return Err(WorkspaceError::InvalidIndex(index));
        }
        self.selected = index;
        Ok(())
    }

    /// Whether an entry other than the one at `index` is named `name`.
    pub fn name_exists_except(&self, name: &str, index: usize) -> (r: bool)
        ensures
            r == exists|i: int|
                0 <= i < self.spec_names().len() && i != index && (#[trigger] self.spec_names()[i])@
                    == name@,
    {
        let r = name_exists_except(&self.names, name, index);
        proof {
            assert(self.spec_names() == self.names@);
            if r {
                let i = choose|i: int|
                    0 <= i < self.names@.len() && i != index && (#[trigger] self.names@[i])@ == name@;
                assert(self.spec_names()[i] == self.names@[i]);
            }
        }
        r
    }

    /// The first free name of the family of `base` (`base`, `base 2`, ...).
    pub fn unique_name(&self, base: &str) -> (r: String)
        requires
            self.spec_names().len() < usize::MAX,
        ensures
            !name_taken(self.spec_names(), r@),
            exists|k: nat|
                1 <= k <= self.spec_names().len() + 1 && r@ == crate::names::candidate(base@, k)
                    && forall|j: nat|
                    1 <= j < k ==> name_taken(
                        self.spec_names(),
                        #[trigger] crate::names::candidate(base@, j),
                    ),
    {
        unique_name(&self.names, base)
    }

    /// The name a copy of the selected entry gets: the first free name of the
    /// family of `<selected name> copy`.
    pub fn copy_name(&self) -> (r: String)
        requires
            self.wf(),
            self.spec_names().len() < usize::MAX,
        ensures
            !name_taken(self.spec_names(), r@),
            exists|k: nat|
                1 <= k <= self.spec_names().len() + 1 && r@ == crate::names::candidate(
                    self.spec_names()[self.spec_selected() as int]@ + " copy"@,
                    k,
                ) && forall|j: nat|
                    1 <= j < k ==> name_taken(
                        self.spec_names(),
                        #[trigger] crate::names::candidate(
                            self.spec_names()[self.spec_selected() as int]@ + " copy"@,
                            j,
                        ),
                    ),
    {
        let mut base = chars_of(self.names[self.selected].as_str());
        let suffix = chars_of(" copy");
        let ghost front = base@;
        let mut i: usize = 0;
        while i < suffix.len()
            invariant
                0 <= i <= suffix@.len(),
                suffix@ == " copy"@,
                base@ == front + suffix@.take(i as int),
            decreases suffix@.len() - i,
        {
            base.push(suffix[i]);
            i = i + 1;
            proof {
                assert(base@ =~= front + suffix@.take(i as int));
            }
        }
        proof {
            assert(suffix@.take(suffix@.len() as int) =~= suffix@);
        }
        let base = string_from_chars(base);
        unique_name(&self.names, base.as_str())
    }

    /// Whether the selected entry can be reset to its bundled default named
    /// `default_name`: the applied document differs from the default, and no
    /// other entry holds that name.
    pub fn can_reset_to(&self, default_name: &str, has_default_changes: bool) -> (r: bool)
        requires
            self.wf(),
        ensures
            r == (has_default_changes && !exists|i: int|
                0 <= i < self.spec_names().len() && i != self.spec_selected() && (
                #[trigger] self.spec_names()[i])@ == default_name@),
    {
        has_default_changes && !name_exists_except(&self.names, default_name, self.selected)
    }

    /// Appends an entry named `name` and selects it, returning its index; a
    /// name that another entry holds is refused.
    pub fn add_entry(&mut self, name: String, entry: E) -> (res: Result<usize, WorkspaceError>)
        requires
            old(self).wf(),
        ensures
            final(self).wf(),
            name_taken(old(self).spec_names(), name@) ==> res == Err::<usize, WorkspaceError>(
                WorkspaceError::DuplicateName(name),
            ) && final(self).spec_entries() == old(self).spec_entries() && final(self).spec_names()
                == old(self).spec_names() && final(self).spec_selected() == old(self).spec_selected(),
            !name_taken(old(self).spec_names(), name@) ==> res == Ok::<usize, WorkspaceError>(
                old(self).spec_entries().len() as usize,
            ) && final(self).spec_entries() == old(self).spec_entries().push(entry)
                && final(self).spec_names() == old(self).spec_names().push(name)
                && final(self).spec_selected() == old(self).spec_entries().len(),
    {
        if contains_name(&self.names, name.as_str()) {
            return Err(WorkspaceError::DuplicateName(name));
        }
        let ghost before = self.names@;
        let index = self.entries.len();
        self.names.push(name);
        self.entries.push(entry);
        self.selected = index;
        proof {
            assert forall|i: int, j: int| 0 <= i < j < self.names@.len() implies (
            #[trigger] self.names@[i])@ != (#[trigger] self.names@[j])@ by {
                if j == before.len() {
                    assert(self.names@[i] == before[i]);
                    if before[i]@ == self.names@[j]@ {
                        assert(name_taken(before, self.names@[j]@));
                    }
                } else {
                    assert(self.names@[i] == before[i] && self.names@[j] == before[j]);
                }
            }
        }
        Ok(index)
    }

    /// Replaces the entry at `index` and its name; an index past the last
    /// entry, or a name another entry holds, is refused.
    pub fn replace_entry(&mut self, index: usize, name: String, entry: E) -> (res: Result<(), WorkspaceError>)
        requires
            old(self).wf(),
        ensures
            final(self).wf(),
            final(self).spec_selected() == old(self).spec_selected(),
            index >= old(self).spec_entries().len() ==> res == Err::<(), WorkspaceError>(
                WorkspaceError::InvalidIndex(index),
            ),
            index < old(self).spec_entries().len() && (exists|i: int|
                0 <= i < old(self).spec_names().len() && i != index && (
                #[trigger] old(self).spec_names()[i])@ == name@) ==> res == Err::<
                (),
                WorkspaceError,
            >(WorkspaceError::DuplicateName(name)),
            index < old(self).spec_entries().len() && !(exists|i: int|
                0 <= i < old(self).spec_names().len() && i != index && (
                #[trigger] old(self).spec_names()[i])@ == name@) ==> res is Ok,
            res is Err ==> final(self).spec_entries() == old(self).spec_entries()
                && final(self).spec_names() == old(self).spec_names(),
            res is Ok ==> index < old(self).spec_entries().len() && final(self).spec_entries()
                == old(self).spec_entries().update(index as int, entry) && final(self).spec_names()
                == old(self).spec_names().update(index as int, name),
    {
        if index >= self.entries.len() {
            return Err(WorkspaceError::InvalidIndex(index));
        }
        if name_exists_except(&self.names, name.as_str(), index) {
            return Err(WorkspaceError::DuplicateName(name));
        }
        let ghost before = self.names@;
        self.names.set(index, name);
        self.entries.set(index, entry);
        proof {
            assert forall|i: int, j: int| 0 <= i < j < self.names@.len() implies (
            #[trigger] self.names@[i])@ != (#[trigger] self.names@[j])@ by {
                if i == index {
                    assert(self.names@[j] == before[j]);
                } else if j == index {
                    assert(self.names@[i] == before[i]);
                } else {
                    assert(self.names@[i] == before[i] && self.names@[j] == before[j]);
                }
            }
        }
        Ok(())
    }
}

impl ConfigWorkspace<ConfigEntry> {
    /// Each entry is held under its own name.
    pub open spec fn entries_named(&self) -> bool {
        forall|i: int|
            0 <= i < self.spec_entries().len() ==> (#[trigger] self.spec_names()[i])@
                == self.spec_entries()[i].spec_name()
    }

    /// The workspace state: names unique, one per entry and each the
    /// entry's own, and the selection an entry.
    pub open spec fn valid(&self) -> bool {
        self.wf() && self.entries_named()
    }

    /// A workspace of the bundled configurations `docs`, the first one
    /// selected; no configuration at all, or two with one name, is refused.
    pub fn from_documents(docs: Vec<ConfigDocument>) -> (res: Result<Self, WorkspaceError>)
        ensures
            docs@.len() == 0 ==> res == Err::<Self, WorkspaceError>(WorkspaceError::Empty),
            res is Ok <==> docs@.len() > 0 && forall|i: int, j: int|
                0 <= i < j < docs@.len() ==> (#[trigger] docs@[i]).spec_name()
                    != (#[trigger] docs@[j]).spec_name(),
            res matches Ok(ws) ==> ws.valid() && ws.spec_selected() == 0 && ws.spec_entries().len()
                == docs@.len() && forall|i: int|
                0 <= i < docs@.len() ==> (#[trigger] ws.spec_entries()[i]).spec_applied() == docs@[i]
                    && ws.spec_entries()[i].spec_draft() is None && default_is_applied(ws.spec_entries()[i]),
            res matches Err(WorkspaceError::DuplicateName(n)) ==> exists|i: int, j: int|
                0 <= i < j < docs@.len() && (#[trigger] docs@[i]).spec_name() == n@
                    && (#[trigger] docs@[j]).spec_name() == n@,
    {
        let ghost all = docs@;
        let mut rest = docs;
        let mut presets: Vec<(String, ConfigEntry)> = Vec::new();
        let mut i: usize = 0;
        while rest.len() > 0
            invariant
                all == presets@.map_values(|p: (String, ConfigEntry)| p.1.spec_applied()) + rest@,
                forall|k: int|
                    0 <= k < presets@.len() ==> (#[trigger] presets@[k]).0@ == presets@[k].1.spec_name()
                        && presets@[k].1.spec_draft() is None && default_is_applied(presets@[k].1),
            decreases rest@.len(),
        {
            let doc = rest.remove(0);
            let name = doc.name().to_string();
            let ghost before = presets@;
            presets.push((name, ConfigEntry::preset(doc)));
            proof {
                assert(presets@.map_values(|p: (String, ConfigEntry)| p.1.spec_applied()) =~= before.map_values(
                    |p: (String, ConfigEntry)| p.1.spec_applied(),
                ).push(doc));
            }
        }
        proof {
            assert(rest@ =~= Seq::<ConfigDocument>::empty());
            assert(all =~= presets@.map_values(|p: (String, ConfigEntry)| p.1.spec_applied()));
        }
        let ghost pairs = presets@;
        let res = Self::from_presets(presets);
        proof {
            let names = pairs.map_values(|p: (String, ConfigEntry)| p.0);
            assert forall|k: int| 0 <= k < all.len() implies (#[trigger] names[k])@ == all[k].spec_name() by {
                assert(all[k] == pairs[k].1.spec_applied());
            }
            if names_distinct(names) {
                assert forall|a: int, b: int| 0 <= a < b < all.len() implies (#[trigger] all[a]).spec_name()
                    != (#[trigger] all[b]).spec_name() by {
                    assert(names[a]@ == all[a].spec_name());
                    assert(names[b]@ == all[b].spec_name());
                }
            } else {
                let (a, b) = choose|a: int, b: int|
                    0 <= a < b < names.len() && (#[trigger] names[a])@ == (#[trigger] names[b])@;
                assert(names[a]@ == all[a].spec_name());
                assert(names[b]@ == all[b].spec_name());
            }
            let r = res;
            match r {
                Ok(ws) => {
                    assert forall|k: int| 0 <= k < ws.spec_entries().len() implies (#[trigger] ws.spec_names()[k])@
                        == ws.spec_entries()[k].spec_name() by {
                        assert(ws.spec_names()[k] == names[k]);
                        assert(ws.spec_entries()[k] == pairs[k].1);
                    }
                    assert forall|k: int| 0 <= k < all.len() implies (#[trigger] ws.spec_entries()[k]).spec_applied()
                        == all[k] && ws.spec_entries()[k].spec_draft() is None
                        && default_is_applied(ws.spec_entries()[k]) by {
                        assert(ws.spec_entries()[k] == pairs[k].1);
                    }
                },
                Err(WorkspaceError::DuplicateName(n)) => {
                    let j = choose|j: int|
                        0 <= j < pairs.len() && n == pairs[j].0 && name_taken(names.take(j), n@) && forall|b: int|
                            0 <= b < j ==> !name_taken(names.take(b), (#[trigger] pairs[b]).0@);
                    let i = choose|i: int| 0 <= i < names.take(j).len() && (#[trigger] names.take(j)[i])@ == n@;
                    assert(names.take(j)[i] == names[i]);
                    assert(names[j] == n);
                    assert(all[i].spec_name() == n@ && all[j].spec_name() == n@);
                },
                _ => {},
            }
        }
        res
    }
    /// Whether the selected entry can be reset: it has a bundled default,
    /// its applied text differs from the default's, and no other entry holds
    /// the default's name.
    pub fn can_reset(&self) -> (r: bool)
        requires
            self.valid(),
        ensures
            r == (self.spec_entries()[self.spec_selected() as int].spec_default() matches Some(d) && d.spec_text()
                != self.spec_entries()[self.spec_selected() as int].spec_applied().spec_text() && !exists|i: int|
                0 <= i < self.spec_names().len() && i != self.spec_selected() && (
                #[trigger] self.spec_names()[i])@ == d.spec_name()),
    {
        let entry = &self.entries[self.selected];
        match entry.default_name() {
            None => false,
            Some(name) => self.can_reset_to(name, entry.has_default_changes()),
        }
    }

    /// Makes `doc` the applied document of entry `index`, clean, under the
    /// document's name; a name another entry holds is refused and leaves
    /// everything as it was.
    fn put_document(&mut self, index: usize, doc: ConfigDocument) -> (res: Result<(), WorkspaceError>)
        requires
            old(self).valid(),
            index < old(self).spec_entries().len(),
        ensures
            final(self).valid(),
            final(self).spec_selected() == old(self).spec_selected(),
            (exists|i: int|
                0 <= i < old(self).spec_names().len() && i != index && (
                #[trigger] old(self).spec_names()[i])@ == doc.spec_name()) <==> res is Err,
            res is Err ==> (res matches Err(WorkspaceError::DuplicateName(n)) && n@ == doc.spec_name())
                && final(self).spec_entries() == old(self).spec_entries() && final(self).spec_names()
                == old(self).spec_names(),
            res is Ok ==> forall|i: int|
                0 <= i < old(self).spec_entries().len() && i != index ==> #[trigger] final(self).spec_entries()[i]
                    == old(self).spec_entries()[i],
            res is Ok ==> final(self).spec_entries()[index as int].spec_applied() == doc
                && final(self).spec_entries()[index as int].spec_draft() is None
                && final(self).spec_entries()[index as int].spec_default() == old(self).spec_entries()[index as int].spec_default(),
    {
        if name_exists_except(&self.names, doc.name(), index) {
            let name = doc.name().to_string();
            return Err(WorkspaceError::DuplicateName(name));
        }
        let name = doc.name().to_string();
        let ghost before_names = self.names@;
        let ghost before_entries = self.entries@;
        let mut entry = self.entries.remove(index);
        entry.commit_apply(doc);
        self.entries.insert(index, entry);
        self.names.set(index, name);
        proof {
            assert(self.entries@ =~= before_entries.update(index as int, entry));
            assert forall|i: int, j: int| 0 <= i < j < self.names@.len() implies (
            #[trigger] self.names@[i])@ != (#[trigger] self.names@[j])@ by {
                if i == index {
                    assert(self.names@[j] == before_names[j]);
                } else if j == index {
                    assert(self.names@[i] == before_names[i]);
                } else {
                    assert(self.names@[i] == before_names[i] && self.names@[j] == before_names[j]);
                }
            }
        }
        Ok(())
    }

    /// Applies the selected entry's draft: `applied` is the draft's document
    /// (`ConfigEntry::pending_source`), as checked by the caller. The entry
    /// takes the document and its name, and becomes clean; a name another
    /// entry holds is refused and leaves the workspace as it was.
    pub fn apply(&mut self, applied: ConfigDocument) -> (res: Result<(), WorkspaceError>)
        requires
            old(self).valid(),
        ensures
            final(self).valid(),
            final(self).spec_selected() == old(self).spec_selected(),
            (exists|i: int|
                0 <= i < old(self).spec_names().len() && i != old(self).spec_selected() && (
                #[trigger] old(self).spec_names()[i])@ == applied.spec_name()) ==> (res matches Err(
                WorkspaceError::DuplicateName(n),
            ) && n@ == applied.spec_name() && final(self).spec_entries() == old(self).spec_entries()
                && final(self).spec_names() == old(self).spec_names()),
            !(exists|i: int|
                0 <= i < old(self).spec_names().len() && i != old(self).spec_selected() && (
                #[trigger] old(self).spec_names()[i])@ == applied.spec_name()) ==> res is Ok,
            res is Ok ==> forall|i: int|
                0 <= i < old(self).spec_entries().len() && i != old(self).spec_selected() ==> #[trigger] final(self).spec_entries()[i] == old(self).spec_entries()[i],
            res is Ok ==> final(self).spec_entries()[old(self).spec_selected() as int].spec_applied() == applied
                && final(self).spec_entries()[old(self).spec_selected() as int].spec_draft() is None
                && final(self).spec_entries()[old(self).spec_selected() as int].spec_default() == old(self).spec_entries()[old(self).spec_selected() as int].spec_default(),
    {
        let index = self.selected;
        self.put_document(index, applied)
    }

    /// Resets the selected entry to its bundled default, clean. `Ok(false)`
    /// when it has none; a default whose name another entry holds is
    /// refused and leaves the workspace as it was.
    pub fn reset(&mut self) -> (res: Result<bool, WorkspaceError>)
        requires
            old(self).valid(),
        ensures
            final(self).valid(),
            final(self).spec_selected() == old(self).spec_selected(),
            old(self).spec_entries()[old(self).spec_selected() as int].spec_default() is None ==> res == Ok::<
                bool,
                WorkspaceError,
            >(false) && final(self).spec_entries() == old(self).spec_entries(),
            old(self).spec_entries()[old(self).spec_selected() as int].spec_default() matches Some(d) ==> (
            (exists|i: int|
                0 <= i < old(self).spec_names().len() && i != old(self).spec_selected() && (
                #[trigger] old(self).spec_names()[i])@ == d.spec_name()) <==> res is Err)
                && (res is Ok ==> res == Ok::<bool, WorkspaceError>(true)),
            res is Err ==> final(self).spec_entries() == old(self).spec_entries()
                && final(self).spec_names() == old(self).spec_names(),
            res matches Err(e) ==> (e matches WorkspaceError::DuplicateName(n)
                && n@ == old(self).spec_entries()[old(self).spec_selected() as int].spec_default()->0.spec_name()),
            res == Ok::<bool, WorkspaceError>(true) ==> ({
                let e = final(self).spec_entries()[old(self).spec_selected() as int];
                let d = old(self).spec_entries()[old(self).spec_selected() as int].spec_default()->0;
                &&& e.spec_draft() is None
                &&& e.spec_applied().spec_items() == d.spec_items()
                &&& e.spec_applied().spec_text() == d.spec_text()
                &&& e.spec_applied().spec_name() == d.spec_name()
                &&& e.spec_default() == old(self).spec_entries()[old(self).spec_selected() as int].spec_default()
            }) && forall|i: int|
                0 <= i < old(self).spec_entries().len() && i != old(self).spec_selected() ==> #[trigger] final(self).spec_entries()[i] == old(self).spec_entries()[i],
    {
        let index = self.selected;
        match self.entries[index].reset_candidate() {
            None => Ok(false),
            Some(default) => match self.put_document(index, default) {
                Ok(()) => Ok(true),
                Err(e) => Err(e),
            },
        }
    }

    /// Adds `entry`, held under its own name, and selects it; a name that
    /// another entry holds is refused.
    fn push_entry(&mut self, entry: ConfigEntry) -> (res: Result<usize, WorkspaceError>)
        requires
            old(self).valid(),
        ensures
            final(self).valid(),
            name_taken(old(self).spec_names(), entry.spec_name()) <==> res is Err,
            res is Err ==> final(self).spec_entries() == old(self).spec_entries()
                && final(self).spec_names() == old(self).spec_names() && final(self).spec_selected()
                == old(self).spec_selected(),
            res is Ok ==> res == Ok::<usize, WorkspaceError>(old(self).spec_entries().len() as usize)
                && final(self).spec_entries() == old(self).spec_entries().push(entry)
                && final(self).spec_selected() == old(self).spec_entries().len(),
    {
        let name = entry.name().to_string();
        let ghost before = self.names@;
        let ghost before_entries = self.entries@;
        let res = self.add_entry(name, entry);
        proof {
            if res is Ok {
                assert forall|i: int| 0 <= i < self.spec_entries().len() implies (
                #[trigger] self.spec_names()[i])@ == self.spec_entries()[i].spec_name() by {
                    if i < before.len() {
                        assert(self.spec_names()[i] == before[i]);
                        assert(self.spec_entries()[i] == before_entries[i]);
                    }
                }
            }
        }
        res
    }

    /// Adds a copy of the selected entry and selects it. The copy takes the
    /// first free name of the family of `<selected name> copy` (`copy_name`),
    /// has no bundled default, and its applied document and draft are the
    /// selected entry's, renamed. The copy always succeeds.
    pub fn copy(&mut self) -> (res: Result<usize, WorkspaceError>)
        requires
            old(self).valid(),
            old(self).spec_names().len() < usize::MAX,
        ensures
            final(self).valid(),
            res == Ok::<usize, WorkspaceError>(old(self).spec_entries().len() as usize),
            final(self).spec_selected() == old(self).spec_entries().len(),
            final(self).spec_entries().drop_last() == old(self).spec_entries(),
            ({
                let e = final(self).spec_entries().last();
                let o = old(self).spec_entries()[old(self).spec_selected() as int];
                let n = e.spec_name();
                let base = old(self).spec_names()[old(self).spec_selected() as int]@ + " copy"@;
                &&& e.spec_default() is None
                &&& !name_taken(old(self).spec_names(), n)
                &&& exists|k: nat|
                    1 <= k <= old(self).spec_names().len() + 1 && n == crate::names::candidate(base, k)
                        && forall|j: nat|
                        1 <= j < k ==> name_taken(
                            old(self).spec_names(),
                            #[trigger] crate::names::candidate(base, j),
                        )
                &&& e.spec_applied().spec_items() == renamed_items(o.spec_applied().spec_items(), n)
                &&& renamed_draft_ok(o.spec_draft(), n, e.spec_draft())
            }),
    {
        let name = self.copy_name();
        let entry = self.entries[self.selected].copy_as(name.as_str());
        let ghost before = self.entries@;
        let res = self.push_entry(entry);
        proof {
            assert(self.spec_entries().drop_last() =~= before);
        }
        res
    }

    /// Renames entry `index` to `name`: its applied document and its draft
    /// are renamed. An index past the last entry, or a name another entry
    /// holds, is refused and leaves the workspace as it was.
    pub fn rename(&mut self, index: usize, name: &str) -> (res: Result<(), WorkspaceError>)
        requires
            old(self).valid(),
        ensures
            final(self).valid(),
            final(self).spec_selected() == old(self).spec_selected(),
            index >= old(self).spec_entries().len() ==> res == Err::<(), WorkspaceError>(
                WorkspaceError::InvalidIndex(index),
            ),
            index < old(self).spec_entries().len() ==> ((exists|i: int|
                0 <= i < old(self).spec_names().len() && i != index && (
                #[trigger] old(self).spec_names()[i])@ == name@) <==> res is Err),
            index < old(self).spec_entries().len() && res is Err ==> (res matches Err(
                WorkspaceError::DuplicateName(n),
            ) && n@ == name@),
            res is Err ==> final(self).spec_entries() == old(self).spec_entries()
                && final(self).spec_names() == old(self).spec_names(),
            res is Ok ==> forall|i: int|
                0 <= i < old(self).spec_entries().len() && i != index ==> #[trigger] final(self).spec_entries()[i]
                    == old(self).spec_entries()[i],
            res is Ok ==> ({
                let e = final(self).spec_entries()[index as int];
                let o = old(self).spec_entries()[index as int];
                &&& e.spec_name() == name@
                &&& e.spec_applied().spec_items() == renamed_items(o.spec_applied().spec_items(), name@)
                &&& e.spec_default() == o.spec_default()
                &&& renamed_draft_ok(o.spec_draft(), name@, e.spec_draft())
            }),
    {
        if index >= self.entries.len() {
            return Err(WorkspaceError::InvalidIndex(index));
        }
        if name_exists_except(&self.names, name, index) {
            return Err(WorkspaceError::DuplicateName(name.to_string()));
        }
        let new_name = name.to_string();
        let ghost before_names = self.names@;
        let ghost before_entries = self.entries@;
        let mut entry = self.entries.remove(index);
        entry.rename_in_place(name);
        self.entries.insert(index, entry);
        self.names.set(index, new_name);
        proof {
            assert(self.entries@ =~= before_entries.update(index as int, entry));
            assert forall|i: int, j: int| 0 <= i < j < self.names@.len() implies (
            #[trigger] self.names@[i])@ != (#[trigger] self.names@[j])@ by {
                if i == index {
                    assert(self.names@[j] == before_names[j]);
                } else if j == index {
                    assert(self.names@[i] == before_names[i]);
                } else {
                    assert(self.names@[i] == before_names[i] && self.names@[j] == before_names[j]);
                }
            }
        }
        Ok(())
    }

    /// Adds an imported configuration, with no bundled default, and selects
    /// it: `doc` is the imported document, renamed by the caller to a free
    /// name (`unique_name`) and checked. A name that an entry holds is
    /// refused.
    pub fn import(&mut self, doc: ConfigDocument) -> (res: Result<usize, WorkspaceError>)
        requires
            old(self).valid(),
        ensures
            final(self).valid(),
            name_taken(old(self).spec_names(), doc.spec_name()) <==> res is Err,
            res is Err ==> final(self).spec_entries() == old(self).spec_entries()
                && final(self).spec_selected() == old(self).spec_selected(),
            res is Ok ==> res == Ok::<usize, WorkspaceError>(old(self).spec_entries().len() as usize)
                && final(self).spec_selected() == old(self).spec_entries().len()
                && final(self).spec_entries().drop_last() == old(self).spec_entries() && ({
                let e = final(self).spec_entries().last();
                &&& e.spec_default() is None
                &&& e.spec_draft() is None
                &&& e.spec_applied() == doc
            }),
    {
        let ghost before = self.entries@;
        let res = self.push_entry(ConfigEntry::custom(doc));
        proof {
            if res is Ok {
                assert(self.spec_entries().drop_last() =~= before);
            }
        }
        res
    }

    /// Imports a checked document as a new custom entry and selects it,
    /// renaming it first, when its name is taken, to the first free name of
    /// its family (`<name> 2`, `<name> 3`, ...). Only `metadata.name`
    /// changes, so the renamed document declares the same configuration
    /// under the new name. The import always succeeds.
    pub fn import_toml(&mut self, doc: ConfigDocument) -> (res: Result<usize, WorkspaceError>)
        requires
            old(self).valid(),
            old(self).spec_names().len() < usize::MAX,
        ensures
            final(self).valid(),
            res == Ok::<usize, WorkspaceError>(old(self).spec_entries().len() as usize),
            final(self).spec_selected() == old(self).spec_entries().len(),
            final(self).spec_entries().drop_last() == old(self).spec_entries(),
            ({
                let e = final(self).spec_entries().last();
                let n = e.spec_name();
                &&& e.spec_default() is None
                &&& e.spec_draft() is None
                &&& !name_taken(old(self).spec_names(), n)
                &&& exists|k: nat|
                    1 <= k <= old(self).spec_names().len() + 1 && n == crate::names::candidate(
                        doc.spec_name(),
                        k,
                    ) && forall|j: nat|
                        1 <= j < k ==> name_taken(
                            old(self).spec_names(),
                            #[trigger] crate::names::candidate(doc.spec_name(), j),
                        )
                &&& e.spec_applied().spec_items() == (if n == doc.spec_name() {
                    doc.spec_items()
                } else {
                    renamed_items(doc.spec_items(), n)
                })
            }),
    {
        let name = unique_name(&self.names, doc.name());
        let fresh = if str_equals(name.as_str(), doc.name()) {
            doc
        } else {
            let mut source = doc.source().clone();
            source.set_name(name.as_str());
            proof {
                lemma_write_reads_back(
                    ensure_table(doc.spec_items(), seq!["metadata"@]),
                    seq!["metadata"@, "name"@],
                    TomlNode::Text(name@),
                );
            }
            ConfigDocument::new(source, name)
        };
        self.import(fresh)
    }
}

} // verus!
