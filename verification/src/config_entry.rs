//! One configuration of the editor: the document last applied, its bundled
//! default if it came with the application, and the text being edited.
//!
//! Whether a document declares a valid configuration is decided where the
//! configuration is read; this module keeps the documents the caller found
//! valid, by name and text, and decides what the editor's actions do to
//! them.

use vstd::prelude::*;

use crate::config_source::{
    ensure_table, lemma_write_reads_back, node_at, parsed_toml, written, ConfigSource, SourceError, TomlNode,
};
use crate::text::str_equals;

verus! {

/// A document that declares a valid configuration named `name`, with its
/// text.
#[derive(Debug)]
pub struct ConfigDocument {
    source: ConfigSource,
    text: String,
    name: String,
}

impl ConfigDocument {
    /// The document's items.
    pub closed spec fn spec_items(&self) -> Map<Seq<Seq<char>>, TomlNode> {
        self.source.items()
    }

    /// The document's text.
    pub closed spec fn spec_text(&self) -> Seq<char> {
        self.text@
    }

    /// The name of the configuration it declares.
    pub closed spec fn spec_name(&self) -> Seq<char> {
        self.name@
    }

    /// The document of `source`, which declares a valid configuration named
    /// `name` (its `metadata.name`): the caller has read and checked it.
    pub fn new(source: ConfigSource, name: String) -> (d: Self)
        requires
            node_at(source.items(), seq!["metadata"@, "name"@]) == Some(TomlNode::Text(name@)),
        ensures
            d.spec_items() == source.items(),
            d.spec_text() == source.text(),
            d.spec_name() == name@,
    {
        let text = source.to_toml_string();
        ConfigDocument { source, text, name }
    }

    /// The configuration's name.
    pub fn name(&self) -> (n: &str)
        ensures
            n@ == self.spec_name(),
    {
        self.name.as_str()
    }

    /// The document's text.
    pub fn to_toml_string(&self) -> (t: String)
        ensures
            t@ == self.spec_text(),
    {
        self.text.clone()
    }

    /// The document.
    pub fn source(&self) -> (s: &ConfigSource)
        ensures
            s.items() == self.spec_items(),
    {
        &self.source
    }
}

impl Clone for ConfigDocument {
    /// A copy with the same items, text and name.
    fn clone(&self) -> (r: Self)
        ensures
            r.spec_items() == self.spec_items(),
            r.spec_text() == self.spec_text(),
            r.spec_name() == self.spec_name(),
    {
        ConfigDocument { source: self.source.clone(), text: self.text.clone(), name: self.name.clone() }
    }
}

/// One entry of the editor's workspace.
#[derive(Debug)]
pub struct ConfigEntry {
    default: Option<ConfigDocument>,
    draft: Option<String>,
    last_applied: ConfigDocument,
}

/// Two documents with the same items, text and name.
pub open spec fn same_document(a: ConfigDocument, b: ConfigDocument) -> bool {
    &&& a.spec_items() == b.spec_items()
    &&& a.spec_text() == b.spec_text()
    &&& a.spec_name() == b.spec_name()
}

/// The entry's bundled default is the document it holds.
pub open spec fn default_is_applied(e: ConfigEntry) -> bool {
    e.spec_default() matches Some(d) && same_document(d, e.spec_applied())
}

/// The items of a document with `items` after its name is set to `name`.
pub open spec fn renamed_items(items: Map<Seq<Seq<char>>, TomlNode>, name: Seq<char>) -> Map<
    Seq<Seq<char>>,
    TomlNode,
> {
    written(ensure_table(items, seq!["metadata"@]), seq!["metadata"@, "name"@], TomlNode::Text(name))
}

/// `renamed` is the draft `draft` renamed to `name`: no draft stays no
/// draft; a draft that is TOML becomes the text of its document with the
/// name set; any other draft is kept as it is.
pub open spec fn renamed_draft_ok(draft: Option<Seq<char>>, name: Seq<char>, renamed: Option<Seq<char>>) -> bool {
    match draft {
        None => renamed is None,
        Some(d) => match parsed_toml(d) {
            None => renamed == Some(d),
            Some(items) => renamed matches Some(t) && exists|s: ConfigSource|
                #[trigger] s.items() == renamed_items(items, name) && s.text() == t,
        },
    }
}

impl ConfigEntry {
    /// The bundled default, if any.
    pub closed spec fn spec_default(&self) -> Option<ConfigDocument> {
        self.default
    }

    /// The text being edited, if it differs from the applied document.
    pub closed spec fn spec_draft(&self) -> Option<Seq<char>> {
        match self.draft {
            Some(d) => Some(d@),
            None => None,
        }
    }

    /// The document last applied.
    pub closed spec fn spec_applied(&self) -> ConfigDocument {
        self.last_applied
    }

    /// The entry's name: that of the applied document.
    pub open spec fn spec_name(&self) -> Seq<char> {
        self.spec_applied().spec_name()
    }

    /// A bundled configuration: its default is the document itself.
    pub fn preset(doc: ConfigDocument) -> (e: Self)
        ensures
            e.spec_default() matches Some(d) && d.spec_items() == doc.spec_items() && d.spec_text()
                == doc.spec_text() && d.spec_name() == doc.spec_name(),
            e.spec_draft() is None,
            e.spec_applied() == doc,
    {
        ConfigEntry { default: Some(doc.clone()), draft: None, last_applied: doc }
    }

    /// A configuration with no bundled default.
    pub fn custom(last_applied: ConfigDocument) -> (e: Self)
        ensures
            e.spec_default() is None,
            e.spec_draft() is None,
            e.spec_applied() == last_applied,
    {
        ConfigEntry { default: None, draft: None, last_applied }
    }

    /// The entry's name.
    pub fn name(&self) -> (n: &str)
        ensures
            n@ == self.spec_name(),
    {
        self.last_applied.name()
    }

    /// The text the editor shows: the draft, or else the applied document's.
    pub fn draft_text(&self) -> (t: String)
        ensures
            t@ == match self.spec_draft() {
                Some(d) => d,
                None => self.spec_applied().spec_text(),
            },
    {
        match &self.draft {
            Some(d) => d.clone(),
            None => self.last_applied.to_toml_string(),
        }
    }

    /// The applied document.
    pub fn applied(&self) -> (d: &ConfigDocument)
        ensures
            *d == self.spec_applied(),
    {
        &self.last_applied
    }

    /// Whether the entry holds a draft.
    pub fn is_dirty(&self) -> (r: bool)
        ensures
            r == self.spec_draft() is Some,
    {
        self.draft.is_some()
    }

    /// Takes `text` as the draft; text equal to the applied document's
    /// leaves the entry clean.
    pub fn set_draft_text(&mut self, text: String)
        ensures
            final(self).spec_draft() == (if text@ == old(self).spec_applied().spec_text() {
                None
            } else {
                Some(text@)
            }),
            final(self).spec_default() == old(self).spec_default(),
            final(self).spec_applied() == old(self).spec_applied(),
    {
        if str_equals(text.as_str(), self.last_applied.text.as_str()) {
            self.draft = None;
        } else {
            self.draft = Some(text);
        }
    }

    /// Drops the draft.
    pub fn revert(&mut self)
        ensures
            final(self).spec_draft() is None,
            final(self).spec_default() == old(self).spec_default(),
            final(self).spec_applied() == old(self).spec_applied(),
    {
        self.draft = None;
    }

    /// The draft read as a document, to be checked and applied; `None` when
    /// the entry is clean.
    pub fn pending_source(&self) -> (r: Option<Result<ConfigSource, SourceError>>)
        ensures
            self.spec_draft() is None ==> r is None,
            self.spec_draft() matches Some(d) ==> r matches Some(p) && (p is Ok <==> parsed_toml(d) is Some)
                && (p matches Ok(s) ==> parsed_toml(d) == Some(s.items())),
    {
        match &self.draft {
            Some(d) => Some(ConfigSource::parse(d.as_str())),
            None => None,
        }
    }

    /// Makes `applied` the applied document and drops the draft.
    pub fn commit_apply(&mut self, applied: ConfigDocument)
        ensures
            final(self).spec_applied() == applied,
            final(self).spec_draft() is None,
            final(self).spec_default() == old(self).spec_default(),
    {
        self.last_applied = applied;
        self.draft = None;
    }

    /// A copy of the bundled default, if any.
    pub fn reset_candidate(&self) -> (r: Option<ConfigDocument>)
        ensures
            r is Some <==> self.spec_default() is Some,
            r matches Some(d) ==> d.spec_items() == self.spec_default()->0.spec_items() && d.spec_text()
                == self.spec_default()->0.spec_text() && d.spec_name()
                == self.spec_default()->0.spec_name(),
    {
        match &self.default {
            Some(d) => Some(d.clone()),
            None => None,
        }
    }

    /// The name of the bundled default, if any.
    pub fn default_name(&self) -> (r: Option<&str>)
        ensures
            r is Some <==> self.spec_default() is Some,
            r matches Some(n) ==> n@ == self.spec_default()->0.spec_name(),
    {
        match &self.default {
            Some(d) => Some(d.name()),
            None => None,
        }
    }

    /// Whether the applied document's text differs from the bundled
    /// default's; `false` without a default.
    pub fn has_default_changes(&self) -> (r: bool)
        ensures
            r == (self.spec_default() matches Some(d) && d.spec_text()
                != self.spec_applied().spec_text()),
    {
        match &self.default {
            Some(d) => !str_equals(self.last_applied.text.as_str(), d.text.as_str()),
            None => false,
        }
    }

    /// The applied document with its name set to `name`.
    pub fn renamed_source(&self, name: &str) -> (s: ConfigSource)
        ensures
            s.items() == written(
                ensure_table(self.spec_applied().spec_items(), seq!["metadata"@]),
                seq!["metadata"@, "name"@],
                TomlNode::Text(name@),
            ),
    {
        let mut source = self.last_applied.source().clone();
        source.set_name(name);
        source
    }

    /// The draft with its name set to `name`: a draft that is not TOML is
    /// kept as it is, so that the author can still mend it.
    pub fn renamed_draft(&self, name: &str) -> (r: Option<String>)
        ensures
            renamed_draft_ok(self.spec_draft(), name@, match r {
                Some(t) => Some(t@),
                None => None,
            }),
    {
        match &self.draft {
            None => None,
            Some(d) => match ConfigSource::parse(d.as_str()) {
                Ok(mut source) => {
                    source.set_name(name);
                    let t = source.to_toml_string();
                    proof {
                        assert(source.items() == renamed_items(parsed_toml(d@)->0, name@));
                    }
                    Some(t)
                },
                Err(_) => Some(d.clone()),
            },
        }
    }

    /// The applied document renamed to `name`.
    fn renamed_document(&self, name: &str) -> (d: ConfigDocument)
        ensures
            d.spec_items() == renamed_items(self.spec_applied().spec_items(), name@),
            d.spec_name() == name@,
    {
        let source = self.renamed_source(name);
        proof {
            lemma_write_reads_back(
                ensure_table(self.spec_applied().spec_items(), seq!["metadata"@]),
                seq!["metadata"@, "name"@],
                TomlNode::Text(name@),
            );
        }
        ConfigDocument::new(source, name.to_string())
    }

    /// A copy of the entry named `name`, with no bundled default: the
    /// applied document and the draft are renamed.
    pub fn copy_as(&self, name: &str) -> (e: Self)
        ensures
            e.spec_default() is None,
            e.spec_applied().spec_items() == renamed_items(self.spec_applied().spec_items(), name@),
            e.spec_applied().spec_name() == name@,
            renamed_draft_ok(self.spec_draft(), name@, e.spec_draft()),
    {
        let draft = self.renamed_draft(name);
        let renamed = self.renamed_document(name);
        ConfigEntry { default: None, draft, last_applied: renamed }
    }

    /// Renames the entry in place: the applied document is renamed, and so
    /// is the draft, so that applying it later keeps the new name.
    pub fn rename_in_place(&mut self, name: &str)
        ensures
            final(self).spec_applied().spec_items() == renamed_items(old(self).spec_applied().spec_items(), name@),
            final(self).spec_applied().spec_name() == name@,
            final(self).spec_default() == old(self).spec_default(),
            renamed_draft_ok(old(self).spec_draft(), name@, final(self).spec_draft()),
    {
        let draft = self.renamed_draft(name);
        let renamed = self.renamed_document(name);
        self.last_applied = renamed;
        self.draft = draft;
    }
}

impl Clone for ConfigEntry {
    /// A copy with the same default, draft and applied document.
    fn clone(&self) -> (r: Self)
        ensures
            r.spec_draft() == self.spec_draft(),
            r.spec_default() is Some == self.spec_default() is Some,
            self.spec_default() matches Some(d) ==> r.spec_default()->0.spec_items() == d.spec_items()
                && r.spec_default()->0.spec_text() == d.spec_text() && r.spec_default()->0.spec_name()
                == d.spec_name(),
            r.spec_applied().spec_items() == self.spec_applied().spec_items(),
            r.spec_applied().spec_text() == self.spec_applied().spec_text(),
            r.spec_applied().spec_name() == self.spec_applied().spec_name(),
    {
        ConfigEntry {
            default: match &self.default {
                Some(d) => Some(d.clone()),
                None => None,
            },
            draft: self.draft.clone(),
            last_applied: self.last_applied.clone(),
        }
    }
}

} // verus!
