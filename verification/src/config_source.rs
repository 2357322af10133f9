//! The configuration file as an editable TOML document.
//!
//! The document itself is a `toml_edit` document; this module sees it as
//! the map from key paths to the items present there, and as the
//! formatting (the text before and after) of each value. Each edit states
//! which items it changes, leaving every other item as it was, and that a
//! value it writes keeps the formatting the value it replaces had. The rest
//! of the layout (comments on other lines, key order, table headers) is
//! `toml_edit`'s to keep; the contracts do not speak of it, and the tests
//! show it kept.

use vstd::prelude::*;

use toml_edit::{DocumentMut, Item, Table, TomlError, Value};

use crate::config::{hex_text, Dimensions, Rgb};
use crate::editor_config::EditorLineColorConfig;
use crate::text::{str_equals, string_from_chars};

verus! {

#[verifier::external_type_specification]
#[verifier::external_body]
pub struct ExDocumentMut(DocumentMut);

#[verifier::external_type_specification]
#[verifier::external_body]
pub struct ExTomlError(TomlError);

/// An item of a TOML document: a table (written with a `[header]` or as dotted
/// keys), an inline table, a string, an integer, a boolean, or anything else
/// (floats, arrays, dates, arrays of tables).
pub enum TomlNode {
    Table,
    InlineTable,
    Text(Seq<char>),
    Integer(int),
    Boolean(bool),
    Other,
}

/// A value written into a document.
#[derive(Debug, Clone, PartialEq, Eq)]
pub enum TomlScalar {
    Text(String),
    Integer(i64),
    Boolean(bool),
}

/// The item a scalar becomes.
pub open spec fn scalar_node(v: TomlScalar) -> TomlNode {
    match v {
        TomlScalar::Text(s) => TomlNode::Text(s@),
        TomlScalar::Integer(i) => TomlNode::Integer(i as int),
        TomlScalar::Boolean(b) => TomlNode::Boolean(b),
    }
}

/// The items of a document, by key path: every key whose item is not
/// `Item::None`, found from the root through tables (`Item::Table`) and
/// inline tables. A table is `Table`, an inline table `InlineTable`, a
/// string, integer or boolean value is held by value, and any other item is
/// `Other`.
pub uninterp spec fn document_items(doc: DocumentMut) -> Map<Seq<Seq<char>>, TomlNode>;

/// The text of a document as `toml_edit` writes it out (`Display`): a
/// function of the document alone. How it relates to the items and the
/// formatting is not stated here.
pub uninterp spec fn document_text(doc: DocumentMut) -> Seq<char>;

/// The formatting of a value: the text written before it (`prefix`) and
/// after it (`suffix`), each `None` where the value has none of its own and
/// is written with the default spacing.
#[derive(Debug, Clone, PartialEq, Eq)]
pub struct TomlDecor {
    pub prefix: Option<String>,
    pub suffix: Option<String>,
}

/// The formatting of a value, as text.
pub type DecorView = (Option<Seq<char>>, Option<Seq<char>>);

/// A formatting as text.
pub open spec fn decor_view(d: TomlDecor) -> DecorView {
    (
        match d.prefix {
            Some(s) => Some(s@),
            None => None,
        },
        match d.suffix {
            Some(s) => Some(s@),
            None => None,
        },
    )
}

/// The formatting of every value of a document (`Item::Value`), by key
/// path: its `Decor` prefix and suffix, each as its text
/// (`RawString::as_str`) or `None`.
pub uninterp spec fn document_decor(doc: DocumentMut) -> Map<Seq<Seq<char>>, DecorView>;

/// The formatting at `p`, or the default (none of its own) where no value
/// is there.
pub open spec fn decor_of(d: Map<Seq<Seq<char>>, DecorView>, p: Seq<Seq<char>>) -> DecorView {
    if d.dom().contains(p) {
        d[p]
    } else {
        (None, None)
    }
}

/// The formatting at `p` kept where `keep` holds, else the default.
pub open spec fn kept_decor(keep: bool, d: Map<Seq<Seq<char>>, DecorView>, p: Seq<Seq<char>>) -> DecorView {
    if keep {
        decor_of(d, p)
    } else {
        (None, None)
    }
}

/// The formatting after writing a value with formatting `f` at `p` by
/// indexing into a document with items `items`: each missing key on the
/// way becomes an inline table, a value with default formatting; nothing is
/// left below `p`.
pub open spec fn decor_written(
    items: Map<Seq<Seq<char>>, TomlNode>,
    d: Map<Seq<Seq<char>>, DecorView>,
    p: Seq<Seq<char>>,
    f: DecorView,
) -> Map<Seq<Seq<char>>, DecorView> {
    Map::new(
        |q: Seq<Seq<char>>|
            q == p || (on_the_way(q, p) && q.len() > 0 && !items.dom().contains(q)) || (
            d.dom().contains(q) && !at_or_below(p, q)),
        |q: Seq<Seq<char>>|
            if q == p {
                f
            } else if on_the_way(q, p) && q.len() > 0 && !items.dom().contains(q) {
                (None, None)
            } else {
                d[q]
            },
    )
}

/// The items of the document that `text` parses to, or `None` when `text`
/// is not a TOML document.
pub uninterp spec fn parsed_toml(text: Seq<char>) -> Option<Map<Seq<Seq<char>>, TomlNode>>;

/// `q` is `p` or lies below it.
pub open spec fn at_or_below(p: Seq<Seq<char>>, q: Seq<Seq<char>>) -> bool {
    p.len() <= q.len() && q.take(p.len() as int) == p
}

/// `m` without the item at `p` and the items below it.
pub open spec fn without_subtree<V>(m: Map<Seq<Seq<char>>, V>, p: Seq<Seq<char>>) -> Map<
    Seq<Seq<char>>,
    V,
> {
    Map::new(|q: Seq<Seq<char>>| m.dom().contains(q) && !at_or_below(p, q), |q: Seq<Seq<char>>| m[q])
}

/// `m` with the item at `p` replaced by `n` (and nothing left below `p`).
pub open spec fn replaced(m: Map<Seq<Seq<char>>, TomlNode>, p: Seq<Seq<char>>, n: TomlNode) -> Map<
    Seq<Seq<char>>,
    TomlNode,
> {
    without_subtree(m, p).insert(p, n)
}

/// Each key on the way to `p` names a table or an inline table, or nothing:
/// the keys through which indexing can reach `p`.
pub open spec fn reachable_for_write(m: Map<Seq<Seq<char>>, TomlNode>, p: Seq<Seq<char>>) -> bool {
    forall|k: int|
        1 <= k < p.len() && #[trigger] m.dom().contains(p.take(k)) ==> (m[p.take(k)] is Table || m[
            p.take(k)
        ] is InlineTable)
}

/// `m` after indexing down to `p`: each missing key on the way becomes an
/// empty inline table.
pub open spec fn with_parents(m: Map<Seq<Seq<char>>, TomlNode>, p: Seq<Seq<char>>) -> Map<
    Seq<Seq<char>>,
    TomlNode,
>
    decreases p.len(),
{
    if p.len() <= 1 {
        m
    } else {
        let up = with_parents(m, p.drop_last());
        if up.dom().contains(p.drop_last()) {
            up
        } else {
            up.insert(p.drop_last(), TomlNode::InlineTable)
        }
    }
}

/// `m` after writing `n` at `p` by indexing.
pub open spec fn written(m: Map<Seq<Seq<char>>, TomlNode>, p: Seq<Seq<char>>, n: TomlNode) -> Map<
    Seq<Seq<char>>,
    TomlNode,
> {
    replaced(with_parents(m, p), p, n)
}

/// Each key on the way to `p` names a table.
pub open spec fn tables_above(m: Map<Seq<Seq<char>>, TomlNode>, p: Seq<Seq<char>>) -> bool {
    forall|k: int| 1 <= k < p.len() ==> #[trigger] m.dom().contains(p.take(k)) && m[p.take(k)] is Table
}

/// `p` names a table.
pub open spec fn is_table_at(m: Map<Seq<Seq<char>>, TomlNode>, p: Seq<Seq<char>>) -> bool {
    m.dom().contains(p) && m[p] is Table
}

/// `m` with a table at `p`: the one there, or else an empty one in place of
/// whatever was there.
pub open spec fn ensure_table(m: Map<Seq<Seq<char>>, TomlNode>, p: Seq<Seq<char>>) -> Map<
    Seq<Seq<char>>,
    TomlNode,
> {
    if is_table_at(m, p) {
        m
    } else {
        replaced(m, p, TomlNode::Table)
    }
}

/// `m` with `p` written as `v`, or `p` removed when `v` is `None`.
pub open spec fn put_optional(m: Map<Seq<Seq<char>>, TomlNode>, p: Seq<Seq<char>>, v: Option<TomlNode>) -> Map<
    Seq<Seq<char>>,
    TomlNode,
> {
    match v {
        Some(n) => written(m, p, n),
        None => without_subtree(m, p),
    }
}

/// `q` lies at or below `parent.k` for a key `k` of `keys`.
pub open spec fn below_keys(parent: Seq<Seq<char>>, keys: Set<Seq<char>>, q: Seq<Seq<char>>) -> bool {
    at_or_below(parent, q) && q.len() > parent.len() && keys.contains(q[parent.len() as int])
}

/// `m` without the keys `keys` of the table `parent` and what lies below them.
pub open spec fn without_keys(m: Map<Seq<Seq<char>>, TomlNode>, parent: Seq<Seq<char>>, keys: Set<Seq<char>>) -> Map<
    Seq<Seq<char>>,
    TomlNode,
> {
    Map::new(|q: Seq<Seq<char>>| m.dom().contains(q) && !below_keys(parent, keys, q), |q: Seq<Seq<char>>| m[q])
}

/// The keys a line-colour table may hold: the three modes, and the keys of
/// the older flat layout, which an edit drops.
pub open spec fn line_color_keys() -> Seq<Seq<char>> {
    seq![
        "solid"@,
        "gradient"@,
        "hue_cycle"@,
        "mode"@,
        "color"@,
        "start"@,
        "end"@,
        "initial"@,
    ]
}

/// The line-colour keys other than `active`.
pub open spec fn inactive_keys(active: Seq<char>) -> Set<Seq<char>> {
    Set::new(|k: Seq<char>| line_color_keys().contains(k) && k != active)
}

/// The path of the line-colour table.
pub open spec fn line_path() -> Seq<Seq<char>> {
    seq!["colors"@, "line"@]
}

/// `m` with the tables `colors` and `colors.line` in place, holding no
/// line-colour key but `active`.
pub open spec fn line_table_for(m: Map<Seq<Seq<char>>, TomlNode>, active: Seq<char>) -> Map<
    Seq<Seq<char>>,
    TomlNode,
> {
    without_keys(
        ensure_table(ensure_table(m, seq!["colors"@]), line_path()),
        line_path(),
        inactive_keys(active),
    )
}

/// A colour as a document item.
pub open spec fn color_node(c: Option<Rgb>) -> Option<TomlNode> {
    match c {
        Some(c) => Some(TomlNode::Text(hex_text(c))),
        None => None,
    }
}

/// A flag as a document item.
pub open spec fn flag_node(b: Option<bool>) -> Option<TomlNode> {
    match b {
        Some(b) => Some(TomlNode::Boolean(b)),
        None => None,
    }
}

/// `m` with the fields `keys` of the table `t` put, in order, as `values`
/// (`None` removes a field).
pub open spec fn fields_put(
    m: Map<Seq<Seq<char>>, TomlNode>,
    t: Seq<Seq<char>>,
    keys: Seq<Seq<char>>,
    values: Seq<Option<TomlNode>>,
) -> Map<Seq<Seq<char>>, TomlNode>
    decreases keys.len(),
{
    if keys.len() == 0 || values.len() == 0 {
        m
    } else {
        put_optional(
            fields_put(m, t, keys.drop_last(), values.drop_last()),
            t.push(keys.last()),
            values.last(),
        )
    }
}

/// The items after the background is set to `background`: written into
/// the table `colors` (made a table first if it is not one), or removed from
/// it when `None` and `colors` is a table.
pub open spec fn background_items(m: Map<Seq<Seq<char>>, TomlNode>, background: Option<Rgb>) -> Map<
    Seq<Seq<char>>,
    TomlNode,
> {
    match background {
        Some(c) => written(
            ensure_table(m, seq!["colors"@]),
            seq!["colors"@, "background"@],
            TomlNode::Text(hex_text(c)),
        ),
        None => if is_table_at(m, seq!["colors"@]) {
            without_subtree(m, seq!["colors"@, "background"@])
        } else {
            m
        },
    }
}

/// The items after the line colour is set to `line`.
pub open spec fn line_color_items(m: Map<Seq<Seq<char>>, TomlNode>, line: Option<EditorLineColorConfig>) -> Map<
    Seq<Seq<char>>,
    TomlNode,
> {
    match line {
        None => if is_table_at(m, seq!["colors"@]) {
            without_subtree(m, line_path())
        } else {
            m
        },
        Some(EditorLineColorConfig::Solid(c)) => written(
            line_table_for(m, "solid"@),
            line_path().push("solid"@),
            TomlNode::Text(hex_text(c)),
        ),
        Some(EditorLineColorConfig::Gradient { start, end, topological_depth }) => {
            let g = line_path().push("gradient"@);
            fields_put(
                ensure_table(line_table_for(m, "gradient"@), g),
                g,
                seq!["start"@, "end"@, "topological_depth"@],
                seq![color_node(start), color_node(end), flag_node(topological_depth)],
            )
        },
        Some(EditorLineColorConfig::HueCycle { initial }) => {
            let h = line_path().push("hue_cycle"@);
            fields_put(
                ensure_table(line_table_for(m, "hue_cycle"@), h),
                h,
                seq!["initial"@],
                seq![color_node(initial)],
            )
        },
    }
}

/// The items after the rules `rules` are written, one after another, into
/// the table `l-system.rules`.
pub open spec fn rules_written(m: Map<Seq<Seq<char>>, TomlNode>, rules: Seq<(char, String)>) -> Map<
    Seq<Seq<char>>,
    TomlNode,
>
    decreases rules.len(),
{
    if rules.len() == 0 {
        m
    } else {
        let (symbol, rhs) = rules.last();
        written(
            rules_written(m, rules.drop_last()),
            seq!["l-system"@, "rules"@, seq![symbol]],
            TomlNode::Text(rhs@),
        )
    }
}

/// Below `parent.k` means below `parent`, one key further, through `k`.
proof fn lemma_below_child(parent: Seq<Seq<char>>, k: Seq<char>, q: Seq<Seq<char>>)
    ensures
        at_or_below(parent.push(k), q) <==> (at_or_below(parent, q) && q.len() > parent.len()
            && q[parent.len() as int] == k),
{
    let n = parent.len() as int;
    if at_or_below(parent.push(k), q) {
        assert(q.take(n) =~= q.take(n + 1).take(n));
        assert(parent.push(k).take(n) =~= parent);
        assert(q[n] == q.take(n + 1)[n]);
    }
    if at_or_below(parent, q) && q.len() > n && q[n] == k {
        assert(q.take(n + 1) =~= q.take(n).push(q[n]));
    }
}

/// Removing one more key of a table.
proof fn lemma_without_one_more_key(
    m: Map<Seq<Seq<char>>, TomlNode>,
    parent: Seq<Seq<char>>,
    keys: Set<Seq<char>>,
    k: Seq<char>,
)
    ensures
        without_subtree(without_keys(m, parent, keys), parent.push(k)) == without_keys(
            m,
            parent,
            keys.insert(k),
        ),
{
    assert forall|q: Seq<Seq<char>>| #![auto]
        without_subtree(without_keys(m, parent, keys), parent.push(k)).dom().contains(q)
            == without_keys(m, parent, keys.insert(k)).dom().contains(q) by {
        lemma_below_child(parent, k, q);
    }
    assert(without_subtree(without_keys(m, parent, keys), parent.push(k)) =~= without_keys(
        m,
        parent,
        keys.insert(k),
    ));
}

/// One key under a writable key can be written.
proof fn lemma_writable2(m: Map<Seq<Seq<char>>, TomlNode>, a: Seq<char>, b: Seq<char>)
    requires
        writable_under(m, seq![a]),
    ensures
        reachable_for_write(m, seq![a, b]),
{
    assert(seq![a, b].take(1) =~= seq![a]);
}

/// Two keys, the first naming a table: the second can be written, and
/// tables put or removed there.
proof fn lemma_path2(m: Map<Seq<Seq<char>>, TomlNode>, a: Seq<char>, b: Seq<char>)
    requires
        is_table_at(m, seq![a]),
    ensures
        tables_above(m, seq![a, b]),
        reachable_for_write(m, seq![a, b]),
{
    assert(seq![a, b].take(1) =~= seq![a]);
}

/// Three keys, the first two naming tables.
proof fn lemma_path3(m: Map<Seq<Seq<char>>, TomlNode>, a: Seq<char>, b: Seq<char>, c: Seq<char>)
    requires
        is_table_at(m, seq![a]),
        is_table_at(m, seq![a, b]),
    ensures
        tables_above(m, seq![a, b, c]),
        reachable_for_write(m, seq![a, b, c]),
{
    assert(seq![a, b, c].take(1) =~= seq![a]);
    assert(seq![a, b, c].take(2) =~= seq![a, b]);
}

/// Four keys, the first three naming tables.
proof fn lemma_path4(
    m: Map<Seq<Seq<char>>, TomlNode>,
    a: Seq<char>,
    b: Seq<char>,
    c: Seq<char>,
    d: Seq<char>,
)
    requires
        is_table_at(m, seq![a]),
        is_table_at(m, seq![a, b]),
        is_table_at(m, seq![a, b, c]),
    ensures
        tables_above(m, seq![a, b, c, d]),
        reachable_for_write(m, seq![a, b, c, d]),
{
    assert(seq![a, b, c, d].take(1) =~= seq![a]);
    assert(seq![a, b, c, d].take(2) =~= seq![a, b]);
    assert(seq![a, b, c, d].take(3) =~= seq![a, b, c]);
}

/// Indexing down to `p` adds nothing when every key on the way is present.
proof fn lemma_with_parents_present(m: Map<Seq<Seq<char>>, TomlNode>, p: Seq<Seq<char>>)
    requires
        forall|k: int| 1 <= k < p.len() ==> #[trigger] m.dom().contains(p.take(k)),
    ensures
        with_parents(m, p) == m,
    decreases p.len(),
{
    if p.len() > 1 {
        let up = p.drop_last();
        assert forall|k: int| 1 <= k < up.len() implies #[trigger] m.dom().contains(up.take(k)) by {
            assert(up.take(k) =~= p.take(k));
            assert(m.dom().contains(p.take(k)));
        }
        lemma_with_parents_present(m, up);
        assert(up =~= p.take(p.len() - 1));
        assert(m.dom().contains(p.take(p.len() - 1)));
    }
}

/// The item at `p`, if any.
pub open spec fn node_at(m: Map<Seq<Seq<char>>, TomlNode>, p: Seq<Seq<char>>) -> Option<TomlNode> {
    if m.dom().contains(p) {
        Some(m[p])
    } else {
        None
    }
}

/// The key of the line-colour table that a line colour is written under.
pub open spec fn mode_key(line: EditorLineColorConfig) -> Seq<char> {
    match line {
        EditorLineColorConfig::Solid(_) => "solid"@,
        EditorLineColorConfig::Gradient { .. } => "gradient"@,
        EditorLineColorConfig::HueCycle { .. } => "hue_cycle"@,
    }
}

/// `DocumentMut` as `Clone` (derived): the copy has the same items and is
/// written out as the same text.
pub assume_specification[<DocumentMut as Clone>::clone](doc: &DocumentMut) -> (r: DocumentMut)
    ensures
        document_items(r) == document_items(*doc),
        document_text(r) == document_text(*doc),
        document_decor(r) == document_decor(*doc),
;

/// `p` names a table, an inline table, or nothing: a key below it can be
/// written by indexing.
pub open spec fn writable_under(m: Map<Seq<Seq<char>>, TomlNode>, p: Seq<Seq<char>>) -> bool {
    !m.dom().contains(p) || m[p] is Table || m[p] is InlineTable
}

/// `DocumentMut::from_str`: parses `text`; the document holds the items of
/// `text` exactly when `text` is TOML.
#[verifier::external_body]
fn parse_document(text: &str) -> (r: Result<DocumentMut, TomlError>)
    ensures
        r is Ok <==> parsed_toml(text@) is Some,
        r matches Ok(d) ==> parsed_toml(text@) == Some(document_items(d)),
{
    text.parse::<DocumentMut>()
}

/// `DocumentMut` as `Display`: the document's text (`document_text`). How
/// the text relates to the items is not stated.
#[verifier::external_body]
fn render_document(doc: &DocumentMut) -> (s: String)
    ensures
        s@ == document_text(*doc),
{
    doc.to_string()
}

/// `doc[a][b] = value`, the value written with the formatting `decor`
/// (`Decor::set_prefix`, `Decor::set_suffix`). Indexing a missing key makes
/// an empty inline table there; indexing anything but a table or an inline
/// table panics, so every key on the way names one or nothing.
#[verifier::external_body]
fn write_value2(doc: &mut DocumentMut, a: &str, b: &str, v: TomlScalar, decor: TomlDecor)
    requires
        reachable_for_write(document_items(*old(doc)), seq![a@, b@]),
    ensures
        document_items(*final(doc)) == written(document_items(*old(doc)), seq![a@, b@], scalar_node(v)),
        document_decor(*final(doc)) == decor_written(
            document_items(*old(doc)),
            document_decor(*old(doc)),
            seq![a@, b@],
            decor_view(decor),
        ),
{
    let mut next = match v {
        TomlScalar::Text(s) => Value::from(s),
        TomlScalar::Integer(i) => Value::from(i),
        TomlScalar::Boolean(x) => Value::from(x),
    };
    if let Some(prefix) = decor.prefix {
        next.decor_mut().set_prefix(prefix);
    }
    if let Some(suffix) = decor.suffix {
        next.decor_mut().set_suffix(suffix);
    }
    doc[a][b] = Item::Value(next);
}

/// `doc[a][b][c] = value` with the formatting `decor`; as for two keys.
#[verifier::external_body]
fn write_value3(doc: &mut DocumentMut, a: &str, b: &str, c: &str, v: TomlScalar, decor: TomlDecor)
    requires
        reachable_for_write(document_items(*old(doc)), seq![a@, b@, c@]),
    ensures
        document_items(*final(doc)) == written(
            document_items(*old(doc)),
            seq![a@, b@, c@],
            scalar_node(v),
        ),
        document_decor(*final(doc)) == decor_written(
            document_items(*old(doc)),
            document_decor(*old(doc)),
            seq![a@, b@, c@],
            decor_view(decor),
        ),
{
    let mut next = match v {
        TomlScalar::Text(s) => Value::from(s),
        TomlScalar::Integer(i) => Value::from(i),
        TomlScalar::Boolean(x) => Value::from(x),
    };
    if let Some(prefix) = decor.prefix {
        next.decor_mut().set_prefix(prefix);
    }
    if let Some(suffix) = decor.suffix {
        next.decor_mut().set_suffix(suffix);
    }
    doc[a][b][c] = Item::Value(next);
}

/// `doc[a][b][c][d] = value` with the formatting `decor`; as for two keys.
#[verifier::external_body]
fn write_value4(
    doc: &mut DocumentMut,
    a: &str,
    b: &str,
    c: &str,
    d: &str,
    v: TomlScalar,
    decor: TomlDecor,
)
    requires
        reachable_for_write(document_items(*old(doc)), seq![a@, b@, c@, d@]),
    ensures
        document_items(*final(doc)) == written(
            document_items(*old(doc)),
            seq![a@, b@, c@, d@],
            scalar_node(v),
        ),
        document_decor(*final(doc)) == decor_written(
            document_items(*old(doc)),
            document_decor(*old(doc)),
            seq![a@, b@, c@, d@],
            decor_view(decor),
        ),
{
    let mut next = match v {
        TomlScalar::Text(s) => Value::from(s),
        TomlScalar::Integer(i) => Value::from(i),
        TomlScalar::Boolean(x) => Value::from(x),
    };
    if let Some(prefix) = decor.prefix {
        next.decor_mut().set_prefix(prefix);
    }
    if let Some(suffix) = decor.suffix {
        next.decor_mut().set_suffix(suffix);
    }
    doc[a][b][c][d] = Item::Value(next);
}

/// `doc[a] = Item::Table(Table::new())`: an empty table at `a`, in place of
/// whatever was there.
#[verifier::external_body]
fn put_table1(doc: &mut DocumentMut, a: &str)
    ensures
        document_items(*final(doc)) == replaced(document_items(*old(doc)), seq![a@], TomlNode::Table),
        document_decor(*final(doc)) == without_subtree(document_decor(*old(doc)), seq![a@]),
{
    doc[a] = Item::Table(Table::new());
}

/// `doc[a][b] = Item::Table(Table::new())`, where `a` names a table.
#[verifier::external_body]
fn put_table2(doc: &mut DocumentMut, a: &str, b: &str)
    requires
        tables_above(document_items(*old(doc)), seq![a@, b@]),
    ensures
        document_items(*final(doc)) == replaced(
            document_items(*old(doc)),
            seq![a@, b@],
            TomlNode::Table,
        ),
        document_decor(*final(doc)) == without_subtree(document_decor(*old(doc)), seq![a@, b@]),
{
    doc[a][b] = Item::Table(Table::new());
}

/// `doc[a][b][c] = Item::Table(Table::new())`, where `a` and `a.b` name tables.
#[verifier::external_body]
fn put_table3(doc: &mut DocumentMut, a: &str, b: &str, c: &str)
    requires
        tables_above(document_items(*old(doc)), seq![a@, b@, c@]),
    ensures
        document_items(*final(doc)) == replaced(
            document_items(*old(doc)),
            seq![a@, b@, c@],
            TomlNode::Table,
        ),
        document_decor(*final(doc)) == without_subtree(document_decor(*old(doc)), seq![a@, b@, c@]),
{
    doc[a][b][c] = Item::Table(Table::new());
}

/// `Table::remove(b)` on the table `a`.
#[verifier::external_body]
fn remove_item2(doc: &mut DocumentMut, a: &str, b: &str)
    requires
        tables_above(document_items(*old(doc)), seq![a@, b@]),
    ensures
        document_items(*final(doc)) == without_subtree(document_items(*old(doc)), seq![a@, b@]),
        document_decor(*final(doc)) == without_subtree(document_decor(*old(doc)), seq![a@, b@]),
{
    if let Some(t) = doc[a].as_table_mut() {
        t.remove(b);
    }
}

/// `Table::remove(c)` on the table `a.b`.
#[verifier::external_body]
fn remove_item3(doc: &mut DocumentMut, a: &str, b: &str, c: &str)
    requires
        tables_above(document_items(*old(doc)), seq![a@, b@, c@]),
    ensures
        document_items(*final(doc)) == without_subtree(document_items(*old(doc)), seq![a@, b@, c@]),
        document_decor(*final(doc)) == without_subtree(document_decor(*old(doc)), seq![a@, b@, c@]),
{
    if let Some(t) = doc[a][b].as_table_mut() {
        t.remove(c);
    }
}

/// `Table::remove(d)` on the table `a.b.c`.
#[verifier::external_body]
fn remove_item4(doc: &mut DocumentMut, a: &str, b: &str, c: &str, d: &str)
    requires
        tables_above(document_items(*old(doc)), seq![a@, b@, c@, d@]),
    ensures
        document_items(*final(doc)) == without_subtree(
            document_items(*old(doc)),
            seq![a@, b@, c@, d@],
        ),
        document_decor(*final(doc)) == without_subtree(document_decor(*old(doc)), seq![a@, b@, c@, d@]),
{
    if let Some(t) = doc[a][b][c].as_table_mut() {
        t.remove(d);
    }
}

/// The formatting of the value at `a.b`, if a value is there (`Item::get`,
/// `Item::as_value`, `Value::decor`, `RawString::as_str`).
#[verifier::external_body]
fn value_decor2(doc: &DocumentMut, a: &str, b: &str) -> (r: Option<TomlDecor>)
    ensures
        r is Some <==> document_decor(*doc).dom().contains(seq![a@, b@]),
        r matches Some(d) ==> decor_view(d) == document_decor(*doc)[seq![a@, b@]],
{
    let d = doc.get(a)?.get(b)?.as_value()?.decor();
    let prefix = match d.prefix() {
        Some(raw) => raw.as_str().map(String::from),
        None => None,
    };
    let suffix = match d.suffix() {
        Some(raw) => raw.as_str().map(String::from),
        None => None,
    };
    Some(TomlDecor { prefix, suffix })
}

/// The formatting of the value at `a.b.c`, if a value is there; as for two
/// keys.
#[verifier::external_body]
fn value_decor3(doc: &DocumentMut, a: &str, b: &str, c: &str) -> (r: Option<TomlDecor>)
    ensures
        r is Some <==> document_decor(*doc).dom().contains(seq![a@, b@, c@]),
        r matches Some(d) ==> decor_view(d) == document_decor(*doc)[seq![a@, b@, c@]],
{
    let d = doc.get(a)?.get(b)?.get(c)?.as_value()?.decor();
    let prefix = match d.prefix() {
        Some(raw) => raw.as_str().map(String::from),
        None => None,
    };
    let suffix = match d.suffix() {
        Some(raw) => raw.as_str().map(String::from),
        None => None,
    };
    Some(TomlDecor { prefix, suffix })
}

/// The formatting of the value at `a.b.c.d`, if a value is there; as for
/// two keys.
#[verifier::external_body]
fn value_decor4(doc: &DocumentMut, a: &str, b: &str, c: &str, d: &str) -> (r: Option<TomlDecor>)
    ensures
        r is Some <==> document_decor(*doc).dom().contains(seq![a@, b@, c@, d@]),
        r matches Some(x) ==> decor_view(x) == document_decor(*doc)[seq![a@, b@, c@, d@]],
{
    let x = doc.get(a)?.get(b)?.get(c)?.get(d)?.as_value()?.decor();
    let prefix = match x.prefix() {
        Some(raw) => raw.as_str().map(String::from),
        None => None,
    };
    let suffix = match x.suffix() {
        Some(raw) => raw.as_str().map(String::from),
        None => None,
    };
    Some(TomlDecor { prefix, suffix })
}

/// Whether `a` names a table (`Table::get`, `Item::is_table`).
#[verifier::external_body]
fn is_table1(doc: &DocumentMut, a: &str) -> (r: bool)
    ensures
        r == is_table_at(document_items(*doc), seq![a@]),
{
    matches!(doc.get(a), Some(Item::Table(_)))
}

/// Whether `a.b` names a table (`Table::get`, `Item::get`, `Item::is_table`).
#[verifier::external_body]
fn is_table2(doc: &DocumentMut, a: &str, b: &str) -> (r: bool)
    ensures
        r == is_table_at(document_items(*doc), seq![a@, b@]),
{
    match doc.get(a) {
        Some(item) => matches!(item.get(b), Some(Item::Table(_))),
        None => false,
    }
}

/// Whether `a.b.c` names a table (`Table::get`, `Item::get`, `Item::is_table`).
#[verifier::external_body]
fn is_table3(doc: &DocumentMut, a: &str, b: &str, c: &str) -> (r: bool)
    ensures
        r == is_table_at(document_items(*doc), seq![a@, b@, c@]),
{
    match doc.get(a) {
        Some(item) => match item.get(b) {
            Some(inner) => matches!(inner.get(c), Some(Item::Table(_))),
            None => false,
        },
        None => false,
    }
}

/// Whether `a` names a table, an inline table or nothing (`Table::get`):
/// what indexing through `a` needs.
#[verifier::external_body]
fn is_writable1(doc: &DocumentMut, a: &str) -> (r: bool)
    ensures
        r == writable_under(document_items(*doc), seq![a@]),
{
    matches!(doc.get(a), None | Some(Item::Table(_)) | Some(Item::Value(Value::InlineTable(_))))
}

/// The formatting read, or the default where there was no value.
fn or_default(d: Option<TomlDecor>) -> (r: TomlDecor)
    ensures
        decor_view(r) == match d {
            Some(x) => decor_view(x),
            None => (None, None),
        },
{
    match d {
        Some(x) => x,
        None => TomlDecor { prefix: None, suffix: None },
    }
}

/// `colors` and `colors.line` are tables.
pub open spec fn line_tables(m: Map<Seq<Seq<char>>, TomlNode>) -> bool {
    is_table_at(m, seq!["colors"@]) && is_table_at(m, line_path())
}

/// `colors`, `colors.line` and its mode table `mode` are tables: setting a
/// field of the mode keeps the formatting it had.
pub open spec fn mode_tables(m: Map<Seq<Seq<char>>, TomlNode>, mode: Seq<char>) -> bool {
    line_tables(m) && is_table_at(m, line_path().push(mode))
}

/// Below `a.x` and below `a.y` at once only when `x == y`.
proof fn lemma_below_distinct_children(a: Seq<Seq<char>>, x: Seq<char>, y: Seq<char>, q: Seq<Seq<char>>)
    requires
        at_or_below(a.push(x), q),
        x != y,
    ensures
        !at_or_below(a.push(y), q),
{
    let n = a.len() as int;
    if at_or_below(a.push(y), q) {
        assert(q.take(n + 1)[n] == a.push(x)[n]);
        assert(q.take(n + 1)[n] == a.push(y)[n]);
    }
}

/// The `i`-th line-colour key.
fn line_color_key(i: usize) -> (k: &'static str)
    requires
        i < 8,
    ensures
        k@ == line_color_keys()[i as int],
{
    match i {
        0 => "solid",
        1 => "gradient",
        2 => "hue_cycle",
        3 => "mode",
        4 => "color",
        5 => "start",
        6 => "end",
        _ => "initial",
    }
}

/// Why a configuration text could not be read as a document.
#[derive(Debug)]
pub enum SourceError {
    /// The text is not TOML.
    Toml(TomlError),
}

/// A configuration file, kept with its layout so that edits change only what
/// they name.
#[derive(Debug)]
pub struct ConfigSource {
    document: DocumentMut,
}

impl Clone for ConfigSource {
    /// A copy with the same items and text.
    fn clone(&self) -> (r: Self)
        ensures
            r.items() == self.items(),
            r.text() == self.text(),
    {
        ConfigSource { document: self.document.clone() }
    }
}

impl ConfigSource {
    /// The items of the document, by key path.
    pub closed spec fn items(&self) -> Map<Seq<Seq<char>>, TomlNode> {
        document_items(self.document)
    }

    /// The formatting of the document's values, by key path.
    pub closed spec fn decor(&self) -> Map<Seq<Seq<char>>, DecorView> {
        document_decor(self.document)
    }

    /// The document's text, as written out.
    pub closed spec fn text(&self) -> Seq<char> {
        document_text(self.document)
    }

    /// Parses `text` as a TOML document.
    pub fn parse(text: &str) -> (r: Result<Self, SourceError>)
        ensures
            r is Ok <==> parsed_toml(text@) is Some,
            r matches Ok(s) ==> parsed_toml(text@) == Some(s.items()),
    {
        match parse_document(text) {
            Ok(document) => Ok(ConfigSource { document }),
            Err(e) => Err(SourceError::Toml(e)),
        }
    }

    /// The document's text.
    pub fn to_toml_string(&self) -> (s: String)
        ensures
            s@ == self.text(),
    {
        render_document(&self.document)
    }

    /// Sets `metadata.name`, making `metadata` a table first if it is not one.
    pub fn set_name(&mut self, name: &str)
        ensures
            final(self).items() == written(
                ensure_table(old(self).items(), seq!["metadata"@]),
                seq!["metadata"@, "name"@],
                TomlNode::Text(name@),
            ),
            decor_of(final(self).decor(), seq!["metadata"@, "name"@]) == kept_decor(
                is_table_at(old(self).items(), seq!["metadata"@]),
                old(self).decor(),
                seq!["metadata"@, "name"@],
            ),
    {
        if !is_table1(&self.document, "metadata") {
            put_table1(&mut self.document, "metadata");
            proof {
                assert(seq!["metadata"@, "name"@].take(1) =~= seq!["metadata"@]);
            }
        }
        proof {
            lemma_path2(self.items(), "metadata"@, "name"@);
        }
        let decor = or_default(value_decor2(&self.document, "metadata", "name"));
        write_value2(&mut self.document, "metadata", "name", TomlScalar::Text(name.to_string()), decor);
    }

    /// Sets the background colour, or removes it (`None`) so that the
    /// default applies.
    pub fn set_background(&mut self, background: Option<Rgb>)
        ensures
            final(self).items() == background_items(old(self).items(), background),
            background is Some ==> decor_of(final(self).decor(), seq!["colors"@, "background"@])
                == kept_decor(
                is_table_at(old(self).items(), seq!["colors"@]),
                old(self).decor(),
                seq!["colors"@, "background"@],
            ),
    {
        match background {
            Some(c) => {
                if !is_table1(&self.document, "colors") {
                    put_table1(&mut self.document, "colors");
                    proof {
                        assert(seq!["colors"@, "background"@].take(1) =~= seq!["colors"@]);
                    }
                }
                proof {
                    lemma_path2(self.items(), "colors"@, "background"@);
                }
                let decor = or_default(value_decor2(&self.document, "colors", "background"));
                write_value2(
                    &mut self.document,
                    "colors",
                    "background",
                    TomlScalar::Text(c.to_hex_string()),
                    decor,
                );
            },
            None => {
                if is_table1(&self.document, "colors") {
                    proof {
                        lemma_path2(self.items(), "colors"@, "background"@);
                    }
                    remove_item2(&mut self.document, "colors", "background");
                }
            },
        }
    }

    /// Makes `colors` and `colors.line` tables and removes every line-colour
    /// key of `colors.line` but `active`.
    fn prepare_line_table(&mut self, active: &str)
        ensures
            final(self).items() == line_table_for(old(self).items(), active@),
            is_table_at(final(self).items(), line_path().push(active@)) == (line_tables(
                old(self).items(),
            ) && is_table_at(old(self).items(), line_path().push(active@))),
            forall|q: Seq<Seq<char>>|
                at_or_below(line_path().push(active@), q) ==> #[trigger] decor_of(final(self).decor(), q)
                    == kept_decor(line_tables(old(self).items()), old(self).decor(), q),
    {
        let ghost t = line_path().push(active@);
        let ghost m0 = self.items();
        let ghost d0 = self.decor();
        assert(t.take(1) =~= seq!["colors"@]);
        assert(t.take(2) =~= line_path());
        assert(line_path().take(1) =~= seq!["colors"@]);
        assert(at_or_below(seq!["colors"@], t));
        assert(at_or_below(line_path(), t));
        assert(at_or_below(seq!["colors"@], line_path()));
        if !is_table1(&self.document, "colors") {
            put_table1(&mut self.document, "colors");
            proof {
                assert forall|q: Seq<Seq<char>>| at_or_below(t, q) implies !self.decor().dom().contains(q) by {
                    lemma_below_trans(seq!["colors"@], t, q);
                }
                assert(!self.items().dom().contains(t));
                assert(!self.items().dom().contains(line_path()));
            }
        }
        let ghost colors_was_table = is_table_at(m0, seq!["colors"@]);
        if !is_table2(&self.document, "colors", "line") {
            proof {
                lemma_path2(self.items(), "colors"@, "line"@);
            }
            put_table2(&mut self.document, "colors", "line");
            proof {
                assert forall|q: Seq<Seq<char>>| at_or_below(t, q) implies !self.decor().dom().contains(q) by {
                    lemma_below_trans(line_path(), t, q);
                }
                assert(!self.items().dom().contains(t));
            }
        }
        proof {
            assert(!at_or_below(t, seq!["colors"@]));
            assert(!at_or_below(t, line_path()));
            assert(is_table_at(self.items(), t) == (line_tables(m0) && is_table_at(m0, t)));
            assert forall|q: Seq<Seq<char>>| at_or_below(t, q) implies #[trigger] decor_of(self.decor(), q)
                == kept_decor(line_tables(m0), d0, q) by {
                if !colors_was_table {
                    lemma_below_trans(seq!["colors"@], t, q);
                } else if !is_table_at(m0, line_path()) {
                    lemma_below_trans(line_path(), t, q);
                }
            }
        }
        let ghost start = self.items();
        let ghost dstart = self.decor();
        let mut i: usize = 0;
        while i < 8
            invariant
                i <= 8,
                is_table_at(start, seq!["colors"@]),
                is_table_at(start, line_path()),
                self.items() == without_keys(
                    start,
                    line_path(),
                    Set::new(|k: Seq<char>| line_color_keys().take(i as int).contains(k) && k != active@),
                ),
                t == line_path().push(active@),
                is_table_at(self.items(), t) == is_table_at(start, t),
                forall|q: Seq<Seq<char>>|
                    at_or_below(t, q) ==> #[trigger] decor_of(self.decor(), q) == decor_of(dstart, q),
            decreases 8 - i,
        {
            let key = line_color_key(i);
            let ghost before = self.items();
            let ghost done = Set::new(
                |k: Seq<char>| line_color_keys().take(i as int).contains(k) && k != active@,
            );
            let ghost next = Set::new(
                |k: Seq<char>| line_color_keys().take(i + 1).contains(k) && k != active@,
            );
            proof {
                assert(line_color_keys().take(i + 1) =~= line_color_keys().take(i as int).push(key@));
                assert forall|k: Seq<char>|
                    line_color_keys().take(i + 1).contains(k) == (line_color_keys().take(
                        i as int,
                    ).contains(k) || k == key@) by {
                    vstd::seq_lib::lemma_seq_contains_after_push(
                        line_color_keys().take(i as int),
                        key@,
                        k,
                    );
                }
            }
            if !str_equals(key, active) {
                proof {
                    lemma_path3(start, "colors"@, "line"@, key@);
                    assert(self.items().dom().contains(seq!["colors"@]));
                    assert(self.items().dom().contains(line_path()));
                    lemma_path3(self.items(), "colors"@, "line"@, key@);
                }
                let ghost d_before = self.decor();
                let ghost i_before = self.items();
                remove_item3(&mut self.document, "colors", "line", key);
                proof {
                    assert(seq!["colors"@, "line"@, key@] =~= line_path().push(key@));
                    assert forall|q: Seq<Seq<char>>| at_or_below(t, q) implies #[trigger] decor_of(
                        self.decor(),
                        q,
                    ) == decor_of(dstart, q) by {
                        lemma_below_distinct_children(line_path(), active@, key@, q);
                        assert(decor_of(d_before, q) == decor_of(dstart, q));
                    }
                    assert(t.take(3) =~= t);
                    assert(at_or_below(t, t));
                    lemma_below_distinct_children(line_path(), active@, key@, t);
                    assert(self.items().dom().contains(t) == i_before.dom().contains(t));
                    lemma_without_one_more_key(start, line_path(), done, key@);
                    assert(key@ != active@);
                    assert forall|k: Seq<char>| next.contains(k) == done.insert(key@).contains(k) by {
                        assert(next.contains(k) == (line_color_keys().take(i + 1).contains(k) && k != active@));
                        assert(done.contains(k) == (line_color_keys().take(i as int).contains(k) && k != active@));
                    }
                    assert(next =~= done.insert(key@));
                }
            } else {
                proof {
                    assert(next =~= done);
                }
            }
            i = i + 1;
            proof {
                assert(Set::new(
                    |k: Seq<char>| line_color_keys().take(i as int).contains(k) && k != active@,
                ) =~= next);
            }
        }
        proof {
            assert(line_color_keys().take(8) =~= line_color_keys());
            assert(Set::new(|k: Seq<char>| line_color_keys().take(8).contains(k) && k != active@) =~= inactive_keys(active@));
        }
    }

    /// Sets `gradient.<key>` of the line-colour table to `value`, or removes
    /// it when `value` is `None`.
    fn put_line_field(&mut self, table: &str, key: &str, value: Option<TomlScalar>)
        requires
            is_table_at(old(self).items(), seq!["colors"@]),
            is_table_at(old(self).items(), line_path()),
            is_table_at(old(self).items(), line_path().push(table@)),
        ensures
            final(self).items() == put_optional(
                old(self).items(),
                line_path().push(table@).push(key@),
                match value {
                    Some(v) => Some(scalar_node(v)),
                    None => None,
                },
            ),
            is_table_at(final(self).items(), seq!["colors"@]),
            is_table_at(final(self).items(), line_path()),
            is_table_at(final(self).items(), line_path().push(table@)),
            value is Some ==> decor_of(final(self).decor(), line_path().push(table@).push(key@))
                == decor_of(old(self).decor(), line_path().push(table@).push(key@)),
            forall|q: Seq<Seq<char>>|
                !at_or_below(line_path().push(table@).push(key@), q) ==> #[trigger] decor_of(
                    final(self).decor(),
                    q,
                ) == decor_of(old(self).decor(), q),
    {
        proof {
            let p = seq!["colors"@, "line"@, table@, key@];
            assert forall|q: Seq<Seq<char>>| on_the_way(q, p) && q.len() > 0 implies self.items().dom().contains(
                q,
            ) by {
                assert(q =~= p.take(q.len() as int));
                assert(p.take(1) =~= seq!["colors"@]);
                assert(p.take(2) =~= line_path());
                assert(p.take(3) =~= line_path().push(table@));
            }
            assert(line_path().push(table@) =~= seq!["colors"@, "line"@, table@]);
            assert(line_path().push(table@).push(key@) =~= p);
            lemma_path4(self.items(), "colors"@, "line"@, table@, key@);
            lemma_with_parents_present(self.items(), p);
        }
        match value {
            Some(v) => {
                let decor = or_default(value_decor4(&self.document, "colors", "line", table, key));
                write_value4(&mut self.document, "colors", "line", table, key, v, decor);
            },
            None => remove_item4(&mut self.document, "colors", "line", table, key),
        }
    }

    /// Makes `colors.line.<table>` a table, after `prepare_line_table`.
    fn prepare_mode_table(&mut self, table: &str)
        requires
            is_table_at(old(self).items(), seq!["colors"@]),
            is_table_at(old(self).items(), line_path()),
        ensures
            final(self).items() == ensure_table(old(self).items(), line_path().push(table@)),
            is_table_at(final(self).items(), seq!["colors"@]),
            is_table_at(final(self).items(), line_path()),
            is_table_at(final(self).items(), line_path().push(table@)),
            forall|q: Seq<Seq<char>>|
                at_or_below(line_path().push(table@), q) && q != line_path().push(table@)
                    ==> #[trigger] decor_of(final(self).decor(), q) == kept_decor(
                    is_table_at(old(self).items(), line_path().push(table@)),
                    old(self).decor(),
                    q,
                ),
    {
        proof {
            assert(line_path().push(table@) =~= seq!["colors"@, "line"@, table@]);
            lemma_path3(self.items(), "colors"@, "line"@, table@);
        }
        if !is_table3(&self.document, "colors", "line", table) {
            put_table3(&mut self.document, "colors", "line", table);
        }
    }

    /// Sets the line colour: `None` removes `colors.line` so that the
    /// default applies; otherwise `colors.line` holds the table of the mode
    /// alone, with the fields that are set.
    pub fn set_line_color(&mut self, line_color: Option<&EditorLineColorConfig>)
        ensures
            final(self).items() == line_color_items(
                old(self).items(),
                match line_color {
                    Some(l) => Some(*l),
                    None => None,
                },
            ),
            line_color matches Some(EditorLineColorConfig::Solid(c)) ==> (decor_of(
                final(self).decor(),
                line_path().push("solid"@),
            ) == kept_decor(line_tables(old(self).items()), old(self).decor(), line_path().push("solid"@))),
            line_color matches Some(EditorLineColorConfig::Gradient { start, end, topological_depth })
                ==> ({
                let g = line_path().push("gradient"@);
                let keep = mode_tables(old(self).items(), "gradient"@);
                &&& start is Some ==> decor_of(final(self).decor(), g.push("start"@)) == kept_decor(
                    keep,
                    old(self).decor(),
                    g.push("start"@),
                )
                &&& end is Some ==> decor_of(final(self).decor(), g.push("end"@)) == kept_decor(
                    keep,
                    old(self).decor(),
                    g.push("end"@),
                )
                &&& topological_depth is Some ==> decor_of(
                    final(self).decor(),
                    g.push("topological_depth"@),
                ) == kept_decor(keep, old(self).decor(), g.push("topological_depth"@))
            }),
            line_color matches Some(EditorLineColorConfig::HueCycle { initial }) ==> (initial is Some
                ==> decor_of(final(self).decor(), line_path().push("hue_cycle"@).push("initial"@))
                == kept_decor(
                mode_tables(old(self).items(), "hue_cycle"@),
                old(self).decor(),
                line_path().push("hue_cycle"@).push("initial"@),
            )),
    {
        match line_color {
            None => {
                if is_table1(&self.document, "colors") {
                    proof {
                        lemma_path2(self.items(), "colors"@, "line"@);
                    }
                    remove_item2(&mut self.document, "colors", "line");
                }
            },
            Some(EditorLineColorConfig::Solid(color)) => {
                let ghost m0 = self.items();
                let ghost d0 = self.decor();
                self.prepare_line_table("solid");
                proof {
                    let q = line_path().push("solid"@);
                    assert(q =~= seq!["colors"@, "line"@, "solid"@]);
                    assert(q.take(3) =~= q);
                    assert(at_or_below(q, q));
                    assert(decor_of(self.decor(), q) == kept_decor(line_tables(m0), d0, q));
                    lemma_path3(self.items(), "colors"@, "line"@, "solid"@);
                }
                let decor = or_default(value_decor3(&self.document, "colors", "line", "solid"));
                write_value3(
                    &mut self.document,
                    "colors",
                    "line",
                    "solid",
                    TomlScalar::Text(color.to_hex_string()),
                    decor,
                );
            },
            Some(EditorLineColorConfig::Gradient { start, end, topological_depth }) => {
                let ghost m0 = self.items();
                let ghost d0 = self.decor();
                let ghost g = line_path().push("gradient"@);
                self.prepare_line_table("gradient");
                self.prepare_mode_table("gradient");
                proof {
                    reveal_strlit("start");
                    reveal_strlit("end");
                    reveal_strlit("topological_depth");
                    assert forall|k: Seq<char>| k.len() > 0 implies #[trigger] decor_of(self.decor(), g.push(k))
                        == kept_decor(mode_tables(m0, "gradient"@), d0, g.push(k)) by {
                        let q = g.push(k);
                        assert(q.take(3) =~= g);
                        assert(at_or_below(g, q));
                        assert(q != g);
                    }
                }
                let ghost d2 = self.decor();
                let start_text = match start {
                    Some(c) => Some(TomlScalar::Text(c.to_hex_string())),
                    None => None,
                };
                self.put_line_field("gradient", "start", start_text);
                let ghost d3 = self.decor();
                let end_text = match end {
                    Some(c) => Some(TomlScalar::Text(c.to_hex_string())),
                    None => None,
                };
                self.put_line_field("gradient", "end", end_text);
                let ghost d4 = self.decor();
                let depth = match topological_depth {
                    Some(b) => Some(TomlScalar::Boolean(*b)),
                    None => None,
                };
                self.put_line_field("gradient", "topological_depth", depth);
                proof {
                    reveal_with_fuel(fields_put, 4);
                    let ps = g.push("start"@);
                    let pe = g.push("end"@);
                    let pt = g.push("topological_depth"@);
                    assert(ps.take(4) =~= ps);
                    assert(pe.take(4) =~= pe);
                    assert(pt.take(4) =~= pt);
                    assert(!at_or_below(pe, ps)) by {
                        if at_or_below(pe, ps) {
                            lemma_below_same_length(pe, ps);
                            assert(pe[3] == ps[3]);
                        }
                    }
                    assert(!at_or_below(pt, ps)) by {
                        if at_or_below(pt, ps) {
                            lemma_below_same_length(pt, ps);
                            assert(pt[3] == ps[3]);
                        }
                    }
                    assert(!at_or_below(pt, pe)) by {
                        if at_or_below(pt, pe) {
                            lemma_below_same_length(pt, pe);
                            assert(pt[3] == pe[3]);
                        }
                    }
                    assert(decor_of(d2, ps) == kept_decor(mode_tables(m0, "gradient"@), d0, ps));
                    assert(decor_of(d2, pe) == kept_decor(mode_tables(m0, "gradient"@), d0, pe));
                    assert(decor_of(d2, pt) == kept_decor(mode_tables(m0, "gradient"@), d0, pt));
                    assert(decor_of(d3, pe) == decor_of(d2, pe));
                    assert(decor_of(d3, pt) == decor_of(d2, pt));
                    assert(decor_of(d4, pt) == decor_of(d3, pt));
                    assert(decor_of(self.decor(), ps) == decor_of(d4, ps));
                    assert(decor_of(d4, ps) == decor_of(d3, ps));
                    assert(decor_of(self.decor(), pe) == decor_of(d4, pe));
                }
            },
            Some(EditorLineColorConfig::HueCycle { initial }) => {
                let ghost m0 = self.items();
                let ghost d0 = self.decor();
                let ghost h = line_path().push("hue_cycle"@);
                self.prepare_line_table("hue_cycle");
                self.prepare_mode_table("hue_cycle");
                proof {
                    let q = h.push("initial"@);
                    assert(q.take(3) =~= h);
                    assert(at_or_below(h, q));
                    assert(q != h);
                    assert(decor_of(self.decor(), q) == kept_decor(mode_tables(m0, "hue_cycle"@), d0, q));
                }
                let initial_text = match initial {
                    Some(c) => Some(TomlScalar::Text(c.to_hex_string())),
                    None => None,
                };
                self.put_line_field("hue_cycle", "initial", initial_text);
                proof {
                    reveal_with_fuel(fields_put, 2);
                }
            },
        }
    }

    /// Sets the start string, the key `start_key` of `l-system`, and replaces
    /// the table of rules (`l-system.rules`) by one holding `rules`, in order,
    /// a later rule for a symbol overriding an earlier one. The replaced
    /// table's comments and layout are not kept.
    ///
    /// `l-system` must be a table: a new rules table placed in an inline
    /// table would not be written out with it.
    pub fn set_grammar(&mut self, start_key: &str, start: &str, rules: &[(char, String)])
        requires
            is_table_at(old(self).items(), seq!["l-system"@]),
        ensures
            final(self).items() == rules_written(
                replaced(
                    written(old(self).items(), seq!["l-system"@, start_key@], TomlNode::Text(start@)),
                    seq!["l-system"@, "rules"@],
                    TomlNode::Table,
                ),
                rules@,
            ),
            start_key@ != "rules"@ ==> decor_of(final(self).decor(), seq!["l-system"@, start_key@])
                == decor_of(old(self).decor(), seq!["l-system"@, start_key@]),
    {
        proof {
            lemma_path2(self.items(), "l-system"@, start_key@);
            lemma_with_parents_present(self.items(), seq!["l-system"@, start_key@]);
        }
        let decor = or_default(value_decor2(&self.document, "l-system", start_key));
        write_value2(&mut self.document, "l-system", start_key, TomlScalar::Text(start.to_string()), decor);
        proof {
            lemma_path2(self.items(), "l-system"@, "rules"@);
        }
        let ghost sp = seq!["l-system"@, start_key@];
        let ghost kept = decor_of(self.decor(), sp);
        put_table2(&mut self.document, "l-system", "rules");
        proof {
            if start_key@ != "rules"@ {
                assert(!at_or_below(seq!["l-system"@, "rules"@], sp)) by {
                    if at_or_below(seq!["l-system"@, "rules"@], sp) {
                        assert(sp.take(2) =~= sp);
                        assert(sp[1] == seq!["l-system"@, "rules"@][1]);
                    }
                }
            }
        }
        let ghost base = self.items();
        let mut i: usize = 0;
        while i < rules.len()
            invariant
                i <= rules@.len(),
                is_table_at(base, seq!["l-system"@]),
                is_table_at(base, seq!["l-system"@, "rules"@]),
                is_table_at(self.items(), seq!["l-system"@]),
                is_table_at(self.items(), seq!["l-system"@, "rules"@]),
                self.items() == rules_written(base, rules@.take(i as int)),
                sp == seq!["l-system"@, start_key@],
                start_key@ != "rules"@ ==> decor_of(self.decor(), sp) == kept,
            decreases rules@.len() - i,
        {
            let (symbol, rhs) = &rules[i];
            let key = string_from_chars(vec![*symbol]);
            let ghost p = seq!["l-system"@, "rules"@, key@];
            proof {
                lemma_path3(self.items(), "l-system"@, "rules"@, key@);
                lemma_with_parents_present(self.items(), p);
                assert(key@ =~= seq![*symbol]);
                assert(rules@.take(i + 1).drop_last() =~= rules@.take(i as int));
                assert(rules@.take(i + 1).last() == rules@[i as int]);
            }
            proof {
                if start_key@ != "rules"@ {
                    assert(sp != p) by {
                        assert(sp.len() != p.len());
                    }
                    assert(!on_the_way(sp, p)) by {
                        if on_the_way(sp, p) {
                            assert(p.take(2) =~= seq!["l-system"@, "rules"@]);
                            assert(sp[1] == p.take(2)[1]);
                        }
                    }
                }
            }
            write_value3(
                &mut self.document,
                "l-system",
                "rules",
                key.as_str(),
                TomlScalar::Text(rhs.clone()),
                TomlDecor { prefix: None, suffix: None },
            );
            i = i + 1;
        }
        proof {
            assert(rules@.take(rules@.len() as int) =~= rules@);
        }
    }

    /// A source holding `document`.
    pub fn from_document(document: DocumentMut) -> (s: Self)
        ensures
            s.items() == document_items(document),
            s.text() == document_text(document),
    {
        ConfigSource { document }
    }

    /// The document.
    pub fn document(&self) -> (d: &DocumentMut)
        ensures
            document_items(*d) == self.items(),
            document_text(*d) == self.text(),
    {
        &self.document
    }

    /// Whether `key` names a table, an inline table or nothing, so that a
    /// key below it can be set: setting one below anything else panics.
    pub fn writable_under(&self, key: &str) -> (r: bool)
        ensures
            r == writable_under(self.items(), seq![key@]),
    {
        is_writable1(&self.document, key)
    }

    /// Whether `key` names a table, so that the rules can be replaced
    /// under it.
    pub fn is_table(&self, key: &str) -> (r: bool)
        ensures
            r == is_table_at(self.items(), seq![key@]),
    {
        is_table1(&self.document, key)
    }

    /// Sets `l-system.iterations`.
    pub fn set_iterations(&mut self, iterations: u32)
        requires
            writable_under(old(self).items(), seq!["l-system"@]),
        ensures
            final(self).items() == written(
                old(self).items(),
                seq!["l-system"@, "iterations"@],
                TomlNode::Integer(iterations as int),
            ),
            decor_of(final(self).decor(), seq!["l-system"@, "iterations"@]) == decor_of(
                old(self).decor(),
                seq!["l-system"@, "iterations"@],
            ),
    {
        proof {
            lemma_writable2(self.items(), "l-system"@, "iterations"@);
        }
        let decor = or_default(value_decor2(&self.document, "l-system", "iterations"));
        write_value2(
            &mut self.document,
            "l-system",
            "iterations",
            TomlScalar::Integer(iterations as i64),
            decor,
        );
    }

    /// Sets `l-system.dimensions` to `"2D"` or `"3D"`.
    pub fn set_dimensions(&mut self, dimensions: Dimensions)
        requires
            writable_under(old(self).items(), seq!["l-system"@]),
        ensures
            final(self).items() == written(
                old(self).items(),
                seq!["l-system"@, "dimensions"@],
                TomlNode::Text(
                    match dimensions {
                        Dimensions::TwoD => "2D"@,
                        Dimensions::ThreeD => "3D"@,
                    },
                ),
            ),
            decor_of(final(self).decor(), seq!["l-system"@, "dimensions"@]) == decor_of(
                old(self).decor(),
                seq!["l-system"@, "dimensions"@],
            ),
    {
        let text = match dimensions {
            Dimensions::TwoD => "2D",
            Dimensions::ThreeD => "3D",
        };
        proof {
            lemma_writable2(self.items(), "l-system"@, "dimensions"@);
        }
        let decor = or_default(value_decor2(&self.document, "l-system", "dimensions"));
        write_value2(&mut self.document, "l-system", "dimensions", TomlScalar::Text(text.to_string()), decor);
    }
}

/// Prefixes compose.
proof fn lemma_below_trans(a: Seq<Seq<char>>, b: Seq<Seq<char>>, c: Seq<Seq<char>>)
    requires
        at_or_below(a, b),
        at_or_below(b, c),
    ensures
        at_or_below(a, c),
{
    assert(c.take(a.len() as int) =~= c.take(b.len() as int).take(a.len() as int));
}

/// Replacing or removing at `p` leaves every path that is not at or below
/// `p` as it was.
proof fn lemma_replaced_keeps(
    m: Map<Seq<Seq<char>>, TomlNode>,
    p: Seq<Seq<char>>,
    n: TomlNode,
    q: Seq<Seq<char>>,
)
    requires
        !at_or_below(p, q),
    ensures
        node_at(replaced(m, p, n), q) == node_at(m, q),
        node_at(without_subtree(m, p), q) == node_at(m, q),
{
    if q == p {
        assert(q.take(p.len() as int) =~= p);
    }
}

/// Two paths of one length, one at or below the other, are equal.
proof fn lemma_below_same_length(p: Seq<Seq<char>>, q: Seq<Seq<char>>)
    requires
        p.len() == q.len(),
        at_or_below(p, q),
    ensures
        p == q,
{
    assert(q.take(p.len() as int) =~= q);
}

/// The fields put into a table `t` three keys deep, whose keys on the way
/// are tables: the tables stay, nothing outside `t` changes, and a field
/// that no later key repeats holds its value.
proof fn lemma_fields_put(
    m: Map<Seq<Seq<char>>, TomlNode>,
    t: Seq<Seq<char>>,
    keys: Seq<Seq<char>>,
    values: Seq<Option<TomlNode>>,
)
    requires
        t.len() == 3,
        keys.len() == values.len(),
        is_table_at(m, t.take(1)),
        is_table_at(m, t.take(2)),
        is_table_at(m, t),
    ensures
        ({
            let r = fields_put(m, t, keys, values);
            &&& is_table_at(r, t.take(1))
            &&& is_table_at(r, t.take(2))
            &&& is_table_at(r, t)
            &&& forall|q: Seq<Seq<char>>| !at_or_below(t, q) ==> #[trigger] node_at(r, q) == node_at(m, q)
            &&& forall|i: int|
                0 <= i < keys.len() && (forall|j: int| i < j < keys.len() ==> keys[j] != keys[i])
                    ==> #[trigger] node_at(r, t.push(keys[i])) == values[i]
        }),
    decreases keys.len(),
{
    if keys.len() > 0 {
        let front = fields_put(m, t, keys.drop_last(), values.drop_last());
        lemma_fields_put(m, t, keys.drop_last(), values.drop_last());
        let p = t.push(keys.last());
        let r = fields_put(m, t, keys, values);
        assert(p.take(1) =~= t.take(1));
        assert(p.take(2) =~= t.take(2));
        assert(p.take(3) =~= t);
        assert(at_or_below(t, p));
        match values.last() {
            Some(n) => {
                lemma_with_parents_present(front, p);
                assert(r == replaced(front, p, n));
            },
            None => {
                assert(r == without_subtree(front, p));
            },
        }
        let n = match values.last() {
            Some(n) => n,
            None => TomlNode::Table,
        };
        lemma_replaced_keeps(front, p, n, t.take(1));
        lemma_replaced_keeps(front, p, n, t.take(2));
        lemma_replaced_keeps(front, p, n, t);
        assert forall|q: Seq<Seq<char>>| !at_or_below(t, q) implies #[trigger] node_at(r, q) == node_at(
            m,
            q,
        ) by {
            if at_or_below(p, q) {
                lemma_below_trans(t, p, q);
            }
            lemma_replaced_keeps(front, p, n, q);
        }
        assert forall|i: int|
            0 <= i < keys.len() && (forall|j: int| i < j < keys.len() ==> keys[j] != keys[i]) implies #[trigger] node_at(
            r,
            t.push(keys[i]),
        ) == values[i] by {
            if i == keys.len() - 1 {
                assert(p.take(p.len() as int) =~= p);
                assert(t.push(keys[i]) == p);
            } else {
                assert(keys.last() != keys[i]);
                if at_or_below(p, t.push(keys[i])) {
                    lemma_below_same_length(p, t.push(keys[i]));
                    assert(p[3] == t.push(keys[i])[3]);
                }
                lemma_replaced_keeps(front, p, n, t.push(keys[i]));
                assert(keys.drop_last()[i] == keys[i]);
                assert forall|j: int| i < j < keys.drop_last().len() implies keys.drop_last()[j] != keys.drop_last()[i] by {
                    assert(keys.drop_last()[j] == keys[j]);
                }
                assert(node_at(front, t.push(keys.drop_last()[i])) == values.drop_last()[i]);
            }
        }
    }
}

/// What writing a line colour leaves and holds: `colors` and `colors.line`
/// are tables; of the line-colour keys, `colors.line` holds the mode's own
/// key alone, and under it the colour's fields (the solid colour, or the
/// gradient's start, end and topological-depth flag, or the hue cycle's
/// initial colour), each present exactly when the colour sets it; every item
/// outside `colors` is as it was.
pub proof fn lemma_line_color_written(m: Map<Seq<Seq<char>>, TomlNode>, line: EditorLineColorConfig)
    ensures
        ({
            let r = line_color_items(m, Some(line));
            let l = line_path();
            let g = l.push("gradient"@);
            let h = l.push("hue_cycle"@);
            &&& is_table_at(r, seq!["colors"@])
            &&& is_table_at(r, l)
            &&& forall|k: Seq<char>|
                #[trigger] inactive_keys(mode_key(line)).contains(k) ==> !r.dom().contains(l.push(k))
            &&& match line {
                EditorLineColorConfig::Solid(c) => node_at(r, l.push("solid"@)) == Some(
                    TomlNode::Text(hex_text(c)),
                ),
                EditorLineColorConfig::Gradient { start, end, topological_depth } => {
                    &&& is_table_at(r, g)
                    &&& node_at(r, g.push("start"@)) == color_node(start)
                    &&& node_at(r, g.push("end"@)) == color_node(end)
                    &&& node_at(r, g.push("topological_depth"@)) == flag_node(topological_depth)
                },
                EditorLineColorConfig::HueCycle { initial } => {
                    &&& is_table_at(r, h)
                    &&& node_at(r, h.push("initial"@)) == color_node(initial)
                },
            }
            &&& forall|q: Seq<Seq<char>>|
                !at_or_below(seq!["colors"@], q) ==> #[trigger] node_at(r, q) == node_at(m, q)
        }),
{
    let c = seq!["colors"@];
    let l = line_path();
    let active = mode_key(line);
    let dead = inactive_keys(active);
    let m1 = ensure_table(m, c);
    let m2 = ensure_table(m1, l);
    let m3 = line_table_for(m, active);
    assert(l.take(1) =~= c);
    assert(at_or_below(c, l));
    assert(!at_or_below(l, c));
    lemma_replaced_keeps(m1, l, TomlNode::Table, c);
    assert(is_table_at(m3, c));
    assert(is_table_at(m3, l));
    assert forall|k: Seq<char>| #[trigger] dead.contains(k) implies !m3.dom().contains(l.push(k)) by {
        assert(l.push(k).take(2) =~= l);
        assert(below_keys(l, dead, l.push(k)));
    }
    assert forall|q: Seq<Seq<char>>| !at_or_below(c, q) implies #[trigger] node_at(m3, q) == node_at(m, q) by {
        if at_or_below(l, q) {
            lemma_below_trans(c, l, q);
        }
        lemma_replaced_keeps(m, c, TomlNode::Table, q);
        lemma_replaced_keeps(m1, l, TomlNode::Table, q);
    }
    let r = line_color_items(m, Some(line));
    let t = l.push(active);
    assert(t.take(1) =~= c);
    assert(t.take(2) =~= l);
    assert(at_or_below(c, t));
    assert(!at_or_below(t, c));
    assert(!at_or_below(t, l));
    // The mode's key differs from every dead key, so nothing there comes back.
    assert forall|k: Seq<char>| #[trigger] dead.contains(k) implies !at_or_below(t, l.push(k)) by {
        if at_or_below(t, l.push(k)) {
            lemma_below_same_length(t, l.push(k));
            assert(t[2] == l.push(k)[2]);
        }
    }
    match line {
        EditorLineColorConfig::Solid(color) => {
            let n = TomlNode::Text(hex_text(color));
            lemma_with_parents_present(m3, t);
            assert(r == replaced(m3, t, n));
            lemma_replaced_keeps(m3, t, n, c);
            lemma_replaced_keeps(m3, t, n, l);
            assert forall|k: Seq<char>| #[trigger] dead.contains(k) implies !r.dom().contains(l.push(k)) by {
                lemma_replaced_keeps(m3, t, n, l.push(k));
            }
            assert forall|q: Seq<Seq<char>>| !at_or_below(c, q) implies #[trigger] node_at(r, q) == node_at(
                m,
                q,
            ) by {
                if at_or_below(t, q) {
                    lemma_below_trans(c, t, q);
                }
                lemma_replaced_keeps(m3, t, n, q);
            }
        },
        _ => {
            let m5 = ensure_table(m3, t);
            lemma_replaced_keeps(m3, t, TomlNode::Table, c);
            lemma_replaced_keeps(m3, t, TomlNode::Table, l);
            assert(is_table_at(m5, t));
            let keys = match line {
                EditorLineColorConfig::Gradient { .. } => seq!["start"@, "end"@, "topological_depth"@],
                _ => seq!["initial"@],
            };
            let values = match line {
                EditorLineColorConfig::Gradient { start, end, topological_depth } => seq![
                    color_node(start),
                    color_node(end),
                    flag_node(topological_depth),
                ],
                EditorLineColorConfig::HueCycle { initial } => seq![color_node(initial)],
                _ => seq![],
            };
            assert(r == fields_put(m5, t, keys, values));
            lemma_fields_put(m5, t, keys, values);
            assert forall|k: Seq<char>| #[trigger] dead.contains(k) implies !r.dom().contains(l.push(k)) by {
                lemma_replaced_keeps(m3, t, TomlNode::Table, l.push(k));
                assert(node_at(r, l.push(k)) == node_at(m5, l.push(k)));
            }
            assert forall|q: Seq<Seq<char>>| !at_or_below(c, q) implies #[trigger] node_at(r, q) == node_at(
                m,
                q,
            ) by {
                if at_or_below(t, q) {
                    lemma_below_trans(c, t, q);
                }
                lemma_replaced_keeps(m3, t, TomlNode::Table, q);
                assert(node_at(r, q) == node_at(m5, q));
            }
            match line {
                EditorLineColorConfig::Gradient { .. } => {
                    reveal_strlit("start");
                    reveal_strlit("end");
                    reveal_strlit("topological_depth");
                    assert("start"@.len() == 5);
                    assert("end"@.len() == 3);
                    assert("topological_depth"@.len() == 17);
                    assert(keys[0] == "start"@);
                    assert(keys[1] == "end"@);
                    assert(keys[2] == "topological_depth"@);
                    assert(keys[1] != keys[0] && keys[2] != keys[0] && keys[2] != keys[1]);
                    assert(node_at(r, t.push(keys[0])) == values[0]);
                    assert(node_at(r, t.push(keys[1])) == values[1]);
                    assert(node_at(r, t.push(keys[2])) == values[2]);
                },
                _ => {
                    assert(node_at(r, t.push(keys[0])) == values[0]);
                },
            }
        },
    }
}

/// `q` is a key on the way to `p`: a proper prefix of it.
pub open spec fn on_the_way(q: Seq<Seq<char>>, p: Seq<Seq<char>>) -> bool {
    q.len() < p.len() && at_or_below(q, p)
}

/// Indexing down to `p` adds items only on the way to `p`.
proof fn lemma_with_parents_keeps(m: Map<Seq<Seq<char>>, TomlNode>, p: Seq<Seq<char>>, q: Seq<Seq<char>>)
    requires
        !on_the_way(q, p),
    ensures
        node_at(with_parents(m, p), q) == node_at(m, q),
    decreases p.len(),
{
    if p.len() > 1 {
        let up = p.drop_last();
        if on_the_way(q, up) {
            assert(p.take(q.len() as int) =~= up.take(q.len() as int));
        }
        lemma_with_parents_keeps(m, up, q);
        if q == up {
            assert(p.take(q.len() as int) =~= up);
        }
    }
}

/// A write reads back: after writing `n` at `p`, the item at `p` is `n`,
/// and every item neither at or below `p` nor on the way to it is as it was.
pub proof fn lemma_write_reads_back(m: Map<Seq<Seq<char>>, TomlNode>, p: Seq<Seq<char>>, n: TomlNode)
    ensures
        node_at(written(m, p, n), p) == Some(n),
        forall|q: Seq<Seq<char>>|
            !at_or_below(p, q) && !on_the_way(q, p) ==> #[trigger] node_at(written(m, p, n), q)
                == node_at(m, q),
{
    assert forall|q: Seq<Seq<char>>| !at_or_below(p, q) && !on_the_way(q, p) implies #[trigger] node_at(
        written(m, p, n),
        q,
    ) == node_at(m, q) by {
        lemma_replaced_keeps(with_parents(m, p), p, n, q);
        lemma_with_parents_keeps(m, p, q);
    }
}

/// Setting the background makes `colors` a table holding the colour as
/// `background`, and leaves every item outside `colors` as it was;
/// clearing it removes `colors.background` and leaves everything else.
pub proof fn lemma_background_written(m: Map<Seq<Seq<char>>, TomlNode>, background: Option<Rgb>)
    ensures
        ({
            let c = seq!["colors"@];
            let b = seq!["colors"@, "background"@];
            let r = background_items(m, background);
            &&& background is Some ==> is_table_at(r, c)
            &&& node_at(r, b) == color_node(background) || (background is None && !is_table_at(m, c))
            &&& forall|q: Seq<Seq<char>>|
                !at_or_below(if background is Some { c } else { b }, q) ==> #[trigger] node_at(r, q)
                    == node_at(m, q)
        }),
{
    let c = seq!["colors"@];
    let b = seq!["colors"@, "background"@];
    assert(b.take(1) =~= c);
    assert(b.take(2) =~= b);
    match background {
        Some(color) => {
            let n = TomlNode::Text(hex_text(color));
            let m1 = ensure_table(m, c);
            lemma_with_parents_present(m1, b);
            lemma_replaced_keeps(m1, b, n, c);
            assert forall|q: Seq<Seq<char>>| !at_or_below(c, q) implies #[trigger] node_at(
                written(m1, b, n),
                q,
            ) == node_at(m, q) by {
                if at_or_below(b, q) {
                    lemma_below_trans(c, b, q);
                }
                lemma_replaced_keeps(m1, b, n, q);
                lemma_replaced_keeps(m, c, TomlNode::Table, q);
            }
        },
        None => {
            if is_table_at(m, c) {
                assert forall|q: Seq<Seq<char>>| !at_or_below(b, q) implies #[trigger] node_at(
                    without_subtree(m, b),
                    q,
                ) == node_at(m, q) by {
                    lemma_replaced_keeps(m, b, TomlNode::Table, q);
                }
            }
        },
    }
}

/// Clearing the line colour removes `colors.line` and leaves every item
/// outside it as it was.
pub proof fn lemma_line_color_cleared(m: Map<Seq<Seq<char>>, TomlNode>)
    requires
        is_table_at(m, seq!["colors"@]),
    ensures
        node_at(line_color_items(m, None), line_path()) is None,
        forall|q: Seq<Seq<char>>|
            !at_or_below(line_path(), q) ==> #[trigger] node_at(line_color_items(m, None), q)
                == node_at(m, q),
{
    assert(line_path().take(2) =~= line_path());
    assert forall|q: Seq<Seq<char>>| !at_or_below(line_path(), q) implies #[trigger] node_at(
        line_color_items(m, None),
        q,
    ) == node_at(m, q) by {
        lemma_replaced_keeps(m, line_path(), TomlNode::Table, q);
    }
}

} // verus!
