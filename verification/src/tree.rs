//! Documents: JSON from other programs and TOML from configuration files, as trees of
//! plain values.
use crate::config::{file_text, is_float, is_nan, Scalar};
use crate::text::same_text;
use vstd::prelude::*;
use vstd::string::*;

verus! {

/// A value of a document.
pub enum Node {
    /// No value.
    Null,
    /// True or false.
    Bool(bool),
    /// A number, as far as it is an integer of 64 bits with or without sign.
    Number { unsigned: Option<u64>, signed: Option<i64> },
    /// A double-precision number, by its bits.
    Float(u64),
    /// A string.
    Text(String),
    /// A date or a time, in text.
    Moment(String),
    /// A list of values.
    List(Vec<Node>),
    /// Named values.
    Table(Vec<(String, Node)>),
}

/// What a value holds.
pub enum Tree {
    Null,
    Bool(bool),
    Number { unsigned: Option<u64>, signed: Option<i64> },
    Float(u64),
    Text(Seq<char>),
    Moment(Seq<char>),
    List(Seq<Tree>),
    Table(Seq<(Seq<char>, Tree)>),
}

/// What a value holds.
pub open spec fn tree(v: Node) -> Tree
    decreases v,
{
    match v {
        Node::Null => Tree::Null,
        Node::Bool(b) => Tree::Bool(b),
        Node::Number { unsigned, signed } => Tree::Number { unsigned, signed },
        Node::Float(bits) => Tree::Float(bits),
        Node::Text(s) => Tree::Text(s@),
        Node::Moment(s) => Tree::Moment(s@),
        Node::List(items) => Tree::List(
            Seq::new(
                items@.len(),
                |i: int|
                    if 0 <= i < items@.len() {
                        tree(items@[i])
                    } else {
                        Tree::Null
                    },
            ),
        ),
        Node::Table(pairs) => Tree::Table(
            Seq::new(
                pairs@.len(),
                |i: int|
                    if 0 <= i < pairs@.len() {
                        (pairs@[i].0@, tree(pairs@[i].1))
                    } else {
                        (Seq::empty(), Tree::Null)
                    },
            ),
        ),
    }
}

/// `serde_json::Value`, a JSON document.
#[verifier::external_type_specification]
#[verifier::external_body]
pub struct ExJson(serde_json::Value);

/// `serde_json::Error`, why a text is no JSON.
#[verifier::external_type_specification]
#[verifier::external_body]
pub struct ExJsonError(serde_json::Error);

/// What `serde_json::from_slice` reads from some bytes: the document, or nothing where
/// they are no JSON.
pub uninterp spec fn json_document(bytes: Seq<u8>) -> Option<Tree>;

/// What a `serde_json::Value` holds.
pub uninterp spec fn json_contents(v: serde_json::Value) -> Tree;

/// How deep the values of a `serde_json::Value` are nested.
pub uninterp spec fn json_depth(v: serde_json::Value) -> nat;

/// `serde_json::from_slice`: the document that some bytes hold.
#[verifier::external_body]
fn read_json(bytes: &[u8]) -> (r: Result<serde_json::Value, serde_json::Error>)
    ensures
        r matches Ok(v) ==> json_document(bytes@) == Some(json_contents(v)),
        r is Err ==> json_document(bytes@) is None,
{
    serde_json::from_slice(bytes)
}

/// The outermost part of a `serde_json::Value`.
enum JsonPart {
    Null,
    Bool(bool),
    Number { unsigned: Option<u64>, signed: Option<i64> },
    Text(String),
    List(Vec<serde_json::Value>),
    Table(Vec<(String, serde_json::Value)>),
}

/// What the outermost part holds, with the values in it.
spec fn json_part_tree(p: JsonPart) -> Tree {
    match p {
        JsonPart::Null => Tree::Null,
        JsonPart::Bool(b) => Tree::Bool(b),
        JsonPart::Number { unsigned, signed } => Tree::Number { unsigned, signed },
        JsonPart::Text(s) => Tree::Text(s@),
        JsonPart::List(items) => Tree::List(
            Seq::new(items@.len(), |i: int| json_contents(items@[i])),
        ),
        JsonPart::Table(pairs) => Tree::Table(
            Seq::new(pairs@.len(), |i: int| (pairs@[i].0@, json_contents(pairs@[i].1))),
        ),
    }
}

/// Whether the values in the outermost part are nested less deep than `depth`.
spec fn json_part_below(p: JsonPart, depth: nat) -> bool {
    match p {
        JsonPart::List(items) => forall|i: int|
            0 <= i < items@.len() ==> json_depth(#[trigger] items@[i]) < depth,
        JsonPart::Table(pairs) => forall|i: int|
            0 <= i < pairs@.len() ==> json_depth((#[trigger] pairs@[i]).1) < depth,
        _ => true,
    }
}

/// The variants of `serde_json::Value`, with `serde_json::Number::as_u64` and `as_i64` of
/// a number: the outermost part of a value, whose contents are those of the value. The
/// values in it are nested less deep.
#[verifier::external_body]
fn json_part(v: serde_json::Value) -> (r: JsonPart)
    ensures
        json_part_tree(r) == json_contents(v),
        json_part_below(r, json_depth(v)),
{
    match v {
        serde_json::Value::Null => JsonPart::Null,
        serde_json::Value::Bool(b) => JsonPart::Bool(b),
        serde_json::Value::Number(n) => {
            JsonPart::Number { unsigned: n.as_u64(), signed: n.as_i64() }
        },
        serde_json::Value::String(s) => JsonPart::Text(s),
        serde_json::Value::Array(a) => JsonPart::List(a),
        serde_json::Value::Object(o) => JsonPart::Table(o.into_iter().collect()),
    }
}

/// A `serde_json::Value` as a value of this library.
fn json_value(v: serde_json::Value) -> (r: Node)
    ensures
        tree(r) == json_contents(v),
    decreases json_depth(v),
{
    match json_part(v) {
        JsonPart::Null => Node::Null,
        JsonPart::Bool(b) => Node::Bool(b),
        JsonPart::Number { unsigned, signed } => Node::Number { unsigned, signed },
        JsonPart::Text(s) => Node::Text(s),
        JsonPart::List(items) => {
            let mut out: Vec<Node> = Vec::new();
            let ghost all = items@;
            for x in it: items.into_iter()
                invariant
                    it.seq() == all,
                    out@.len() == it.index(),
                    forall|i: int|
                        0 <= i < out@.len() ==> tree(#[trigger] out@[i]) == json_contents(all[i]),
                    forall|i: int|
                        0 <= i < all.len() ==> json_depth(#[trigger] all[i]) < json_depth(v),
            {
                assert(x == all[it.index()]);
                out.push(json_value(x));
            }
            assert(tree(Node::List(out))->List_0 =~= Seq::new(
                all.len(),
                |i: int| json_contents(all[i]),
            ));
            Node::List(out)
        },
        JsonPart::Table(pairs) => {
            let mut out: Vec<(String, Node)> = Vec::new();
            let ghost all = pairs@;
            for x in it: pairs.into_iter()
                invariant
                    it.seq() == all,
                    out@.len() == it.index(),
                    forall|i: int|
                        0 <= i < out@.len() ==> (#[trigger] out@[i]).0@ == all[i].0@ && tree(
                            out@[i].1,
                        ) == json_contents(all[i].1),
                    forall|i: int|
                        0 <= i < all.len() ==> json_depth((#[trigger] all[i]).1) < json_depth(v),
            {
                assert(x == all[it.index()]);
                let (name, value) = x;
                out.push((name, json_value(value)));
            }
            assert(tree(Node::Table(out))->Table_0 =~= Seq::new(
                all.len(),
                |i: int| (all[i].0@, json_contents(all[i].1)),
            ));
            Node::Table(out)
        },
    }
}

/// The JSON document that some bytes hold.
pub fn parse_json(bytes: &[u8]) -> (r: Option<Node>)
    ensures
        r is Some <==> json_document(bytes@) is Some,
        r matches Some(v) ==> json_document(bytes@) == Some(tree(v)),
{
    match read_json(bytes) {
        Ok(v) => Some(json_value(v)),
        Err(_) => None,
    }
}

/// `toml::Value`, a TOML document.
#[verifier::external_type_specification]
#[verifier::external_body]
pub struct ExToml(toml::Value);

/// `toml::de::Error`, why a text is no TOML.
#[verifier::external_type_specification]
#[verifier::external_body]
pub struct ExTomlError(toml::de::Error);

/// What `toml::from_str` reads from a text: the document, or nothing where it is no TOML.
pub uninterp spec fn toml_document(text: Seq<char>) -> Option<Tree>;

/// What a `toml::Value` holds.
pub uninterp spec fn toml_contents(v: toml::Value) -> Tree;

/// How deep the values of a `toml::Value` are nested.
pub uninterp spec fn toml_depth(v: toml::Value) -> nat;

/// `toml::from_str`: the document that a text holds.
#[verifier::external_body]
fn read_toml(text: &str) -> (r: Result<toml::Value, toml::de::Error>)
    ensures
        r matches Ok(v) ==> toml_document(text@) == Some(toml_contents(v)),
        r is Err ==> toml_document(text@) is None,
{
    toml::from_str(text)
}

/// The outermost part of a `toml::Value`.
enum TomlPart {
    Text(String),
    Integer(i64),
    Float(u64),
    Bool(bool),
    Moment(String),
    List(Vec<toml::Value>),
    Table(Vec<(String, toml::Value)>),
}

/// An integer with a sign, and without one where it is not negative.
pub open spec fn integer_tree(n: i64) -> Tree {
    Tree::Number {
        unsigned: if n >= 0 {
            Some(n as u64)
        } else {
            None
        },
        signed: Some(n),
    }
}

/// What the outermost part holds, with the values in it.
spec fn toml_part_tree(p: TomlPart) -> Tree {
    match p {
        TomlPart::Text(s) => Tree::Text(s@),
        TomlPart::Integer(n) => integer_tree(n),
        TomlPart::Float(bits) => Tree::Float(bits),
        TomlPart::Bool(b) => Tree::Bool(b),
        TomlPart::Moment(s) => Tree::Moment(s@),
        TomlPart::List(items) => Tree::List(
            Seq::new(items@.len(), |i: int| toml_contents(items@[i])),
        ),
        TomlPart::Table(pairs) => Tree::Table(
            Seq::new(pairs@.len(), |i: int| (pairs@[i].0@, toml_contents(pairs@[i].1))),
        ),
    }
}

/// Whether the values in the outermost part are nested less deep than `depth`.
spec fn toml_part_below(p: TomlPart, depth: nat) -> bool {
    match p {
        TomlPart::List(items) => forall|i: int|
            0 <= i < items@.len() ==> toml_depth(#[trigger] items@[i]) < depth,
        TomlPart::Table(pairs) => forall|i: int|
            0 <= i < pairs@.len() ==> toml_depth((#[trigger] pairs@[i]).1) < depth,
        _ => true,
    }
}

/// The variants of `toml::Value`: the outermost part of a value, whose contents are those
/// of the value, a floating-point number by its bits and a date as `toml::value::Datetime`
/// is written. The values in it are nested less deep.
#[verifier::external_body]
fn toml_part(v: toml::Value) -> (r: TomlPart)
    ensures
        toml_part_tree(r) == toml_contents(v),
        toml_part_below(r, toml_depth(v)),
{
    match v {
        toml::Value::String(s) => TomlPart::Text(s),
        toml::Value::Integer(n) => TomlPart::Integer(n),
        toml::Value::Float(x) => TomlPart::Float(x.to_bits()),
        toml::Value::Boolean(b) => TomlPart::Bool(b),
        toml::Value::Datetime(d) => TomlPart::Moment(d.to_string()),
        toml::Value::Array(a) => TomlPart::List(a),
        toml::Value::Table(t) => TomlPart::Table(t.into_iter().collect()),
    }
}

/// An integer as a value.
pub fn integer(n: i64) -> (r: Node)
    ensures
        tree(r) == integer_tree(n),
{
    let unsigned: Option<u64> = if n >= 0 {
        Some(n as u64)
    } else {
        None
    };
    Node::Number { unsigned, signed: Some(n) }
}

/// A `toml::Value` as a value of this library.
fn toml_value(v: toml::Value) -> (r: Node)
    ensures
        tree(r) == toml_contents(v),
    decreases toml_depth(v),
{
    match toml_part(v) {
        TomlPart::Text(s) => Node::Text(s),
        TomlPart::Integer(n) => integer(n),
        TomlPart::Float(bits) => Node::Float(bits),
        TomlPart::Bool(b) => Node::Bool(b),
        TomlPart::Moment(s) => Node::Moment(s),
        TomlPart::List(items) => {
            let mut out: Vec<Node> = Vec::new();
            let ghost all = items@;
            for x in it: items.into_iter()
                invariant
                    it.seq() == all,
                    out@.len() == it.index(),
                    forall|i: int|
                        0 <= i < out@.len() ==> tree(#[trigger] out@[i]) == toml_contents(all[i]),
                    forall|i: int|
                        0 <= i < all.len() ==> toml_depth(#[trigger] all[i]) < toml_depth(v),
            {
                assert(x == all[it.index()]);
                out.push(toml_value(x));
            }
            assert(tree(Node::List(out))->List_0 =~= Seq::new(
                all.len(),
                |i: int| toml_contents(all[i]),
            ));
            Node::List(out)
        },
        TomlPart::Table(pairs) => {
            let mut out: Vec<(String, Node)> = Vec::new();
            let ghost all = pairs@;
            for x in it: pairs.into_iter()
                invariant
                    it.seq() == all,
                    out@.len() == it.index(),
                    forall|i: int|
                        0 <= i < out@.len() ==> (#[trigger] out@[i]).0@ == all[i].0@ && tree(
                            out@[i].1,
                        ) == toml_contents(all[i].1),
                    forall|i: int|
                        0 <= i < all.len() ==> toml_depth((#[trigger] all[i]).1) < toml_depth(v),
            {
                assert(x == all[it.index()]);
                let (name, value) = x;
                out.push((name, toml_value(value)));
            }
            assert(tree(Node::Table(out))->Table_0 =~= Seq::new(
                all.len(),
                |i: int| (all[i].0@, toml_contents(all[i].1)),
            ));
            Node::Table(out)
        },
    }
}

/// The TOML document that a text holds.
pub fn parse_toml(text: &str) -> (r: Option<Node>)
    ensures
        r is Some <==> toml_document(text@) is Some,
        r matches Some(v) ==> toml_document(text@) == Some(tree(v)),
{
    match read_toml(text) {
        Ok(v) => Some(toml_value(v)),
        Err(_) => None,
    }
}

// ---- writing TOML ----

/// `toml::ser::Error`, why a value cannot be written as TOML.
#[verifier::external_type_specification]
#[verifier::external_body]
pub struct ExTomlWriteError(toml::ser::Error);

/// What `toml::to_string_pretty` writes of a value: a document, or nothing where the value
/// cannot be written as one.
pub uninterp spec fn toml_written(t: Tree) -> Option<Seq<char>>;

/// The bits of the double-precision number that `str::parse` reads from a text that is one,
/// infinity among them.
pub uninterp spec fn float_bits(text: Seq<char>) -> u64;

/// Whether a value is the number that a text is.
pub open spec fn is_number_tree(t: Tree, text: Seq<char>) -> bool {
    t is Float && (is_nan(text) || t == Tree::Float(float_bits(text)))
}

/// `toml::to_string_pretty`: the document that holds a value.
#[verifier::external_body]
fn write_toml(v: &toml::Value) -> (r: Result<String, toml::ser::Error>)
    ensures
        r matches Ok(s) ==> toml_written(toml_contents(*v)) == Some(s@),
        r is Err ==> toml_written(toml_contents(*v)) is None,
{
    toml::to_string_pretty(v)
}

/// A `toml::Value` without parts of its own.
enum TomlLeaf {
    Integer(i64),
    Bool(bool),
    Text(String),
    NoEntries,
}

/// What a `toml::Value` without parts holds.
spec fn leaf_tree(leaf: TomlLeaf) -> Tree {
    match leaf {
        TomlLeaf::Integer(n) => integer_tree(n),
        TomlLeaf::Bool(b) => Tree::Bool(b),
        TomlLeaf::Text(s) => Tree::Text(s@),
        TomlLeaf::NoEntries => Tree::Table(Seq::empty()),
    }
}

/// The variants of `toml::Value`, and `toml::map::Map::new`: a value that holds an integer,
/// true or false, a string, or no entries.
#[verifier::external_body]
fn toml_leaf(leaf: TomlLeaf) -> (r: toml::Value)
    ensures
        toml_contents(r) == leaf_tree(leaf),
{
    match leaf {
        TomlLeaf::Integer(n) => toml::Value::Integer(n),
        TomlLeaf::Bool(b) => toml::Value::Boolean(b),
        TomlLeaf::Text(s) => toml::Value::String(s),
        TomlLeaf::NoEntries => toml::Value::Table(toml::map::Map::new()),
    }
}

/// `str::parse` into the number that `toml::Value::Float` holds: it succeeds on the texts
/// of the grammar that its documentation gives, and a text alone decides which number it
/// is. Which bits stand for no number at all rests with the machine, so nothing is said of
/// them.
#[verifier::external_body]
fn toml_float(text: &str) -> (r: Option<toml::Value>)
    ensures
        r is Some <==> is_float(text@),
        r matches Some(v) ==> toml_contents(v) is Float,
        r matches Some(v) ==> is_nan(text@) || toml_contents(v) == Tree::Float(float_bits(text@)),
{
    text.parse().ok().map(toml::Value::Float)
}

/// Whether a text comes before another, by the first character in which they differ.
pub open spec fn text_before(a: Seq<char>, b: Seq<char>) -> bool
    decreases a.len(),
{
    if b.len() == 0 {
        false
    } else if a.len() == 0 {
        true
    } else if a[0] == b[0] {
        text_before(a.drop_first(), b.drop_first())
    } else {
        a[0] < b[0]
    }
}

/// Named values with one more: in place of the one that had its name, or else where it
/// belongs in the order of names.
pub open spec fn with_pair(
    pairs: Seq<(Seq<char>, Tree)>,
    name: Seq<char>,
    value: Tree,
) -> Seq<(Seq<char>, Tree)>
    decreases pairs.len(),
{
    if pairs.len() == 0 || text_before(pairs.last().0, name) {
        pairs.push((name, value))
    } else if pairs.last().0 == name {
        pairs.drop_last().push((name, value))
    } else {
        with_pair(pairs.drop_last(), name, value).push(pairs.last())
    }
}

/// `toml::Value::as_table_mut` and `toml::map::Map::insert`: a table with a value put under
/// a name; nothing where the value is no table. The entries of a table are in the order of
/// their names.
#[verifier::external_body]
fn toml_insert(v: toml::Value, name: String, value: toml::Value) -> (r: Option<toml::Value>)
    ensures
        r is Some <==> toml_contents(v) is Table,
        r matches Some(t) ==> toml_contents(t) == Tree::Table(
            with_pair(toml_contents(v)->Table_0, name@, toml_contents(value)),
        ),
{
    let mut v = v;
    v.as_table_mut()?.insert(name, value);
    Some(v)
}

/// Named values with one more hold that one under its name, and the others as they were.
pub proof fn one_more_pair(pairs: Seq<(Seq<char>, Tree)>, name: Seq<char>, value: Tree)
    ensures
        by_name(with_pair(pairs, name, value)) == by_name(pairs).insert(name, value),
    decreases pairs.len(),
{
    let all = with_pair(pairs, name, value);
    if pairs.len() == 0 || text_before(pairs.last().0, name) {
        assert(all.drop_last() =~= pairs);
    } else if pairs.last().0 == name {
        assert(all.drop_last() =~= pairs.drop_last());
        assert(by_name(all) =~= by_name(pairs).insert(name, value));
    } else {
        let fewer = pairs.drop_last();
        one_more_pair(fewer, name, value);
        assert(all.drop_last() =~= with_pair(fewer, name, value));
        assert(by_name(all) =~= by_name(pairs).insert(name, value));
    }
}

/// The floating-point number that a text is, by its bits; nothing where it is none.
pub fn read_float(text: &str) -> (r: Option<u64>)
    ensures
        r is Some <==> is_float(text@),
        r matches Some(bits) ==> is_number_tree(Tree::Float(bits), text@),
{
    match toml_float(text) {
        Some(v) => match toml_part(v) {
            TomlPart::Float(bits) => Some(bits),
            _ => None,
        },
        None => None,
    }
}

/// Whether a value is the one that was typed in.
pub open spec fn is_scalar_tree(t: Tree, value: Scalar) -> bool {
    match value {
        Scalar::Integer(n) => t == integer_tree(n),
        Scalar::Float(s) => is_number_tree(t, s@),
        Scalar::Boolean(b) => t == Tree::Bool(b),
        Scalar::Text(s) => t == Tree::Text(s@),
    }
}

/// Why a key cannot be set: the file holds something else than a table, or what it would
/// hold cannot be written.
#[derive(Clone, Copy, PartialEq, Eq, Structural, Debug)]
pub enum SetError {
    NoTable,
    NotWritten,
}

/// The named values of a document; none where there is no text or it is no TOML, nothing
/// where it holds something else than a table.
pub open spec fn document_pairs(file: Option<Seq<char>>) -> Option<Seq<(Seq<char>, Tree)>> {
    match file {
        Some(text) => match toml_document(text) {
            Some(Tree::Table(pairs)) => Some(pairs),
            Some(_) => None,
            None => Some(Seq::empty()),
        },
        None => Some(Seq::empty()),
    }
}

/// The text of a document in which a value is put under a name.
pub open spec fn document_with(
    file: Option<Seq<char>>,
    name: Seq<char>,
    value: Tree,
) -> Result<Seq<char>, SetError> {
    match document_pairs(file) {
        Some(pairs) => match toml_written(Tree::Table(with_pair(pairs, name, value))) {
            Some(text) => Ok(text),
            None => Err(SetError::NotWritten),
        },
        None => Err(SetError::NoTable),
    }
}

/// Whether `r` is the text of a document in which a value is put under a name.
pub open spec fn is_document_with(
    r: Result<String, SetError>,
    file: Option<Seq<char>>,
    name: Seq<char>,
    value: Tree,
) -> bool {
    match document_with(file, name, value) {
        Ok(text) => r matches Ok(s) && s@ == text,
        Err(e) => r == Err::<String, SetError>(e),
    }
}

/// The text of a document in which a value is put under a name; a text that is no TOML
/// counts as an empty one.
pub fn put_in_document(file: Option<&str>, name: String, value: Scalar) -> (r: Result<
    String,
    SetError,
>)
    requires
        value matches Scalar::Float(s) ==> is_float(s@),
    ensures
        exists|t: Tree| #[trigger]
            is_scalar_tree(t, value) && is_document_with(r, file_text(file), name@, t),
{
    let ghost was = value;
    let parsed = match file {
        Some(text) => match read_toml(text) {
            Ok(v) => Some(v),
            Err(_) => None,
        },
        None => None,
    };
    let current = match parsed {
        Some(v) => v,
        None => toml_leaf(TomlLeaf::NoEntries),
    };
    let new = match value {
        Scalar::Integer(n) => toml_leaf(TomlLeaf::Integer(n)),
        Scalar::Float(s) => match toml_float(s.as_str()) {
            Some(v) => v,
            None => toml_leaf(TomlLeaf::Text(s)),
        },
        Scalar::Boolean(b) => toml_leaf(TomlLeaf::Bool(b)),
        Scalar::Text(s) => toml_leaf(TomlLeaf::Text(s)),
    };
    assert(is_scalar_tree(toml_contents(new), was));
    match toml_insert(current, name, new) {
        Some(v) => match write_toml(&v) {
            Ok(s) => Ok(s),
            Err(_) => Err(SetError::NotWritten),
        },
        None => Err(SetError::NoTable),
    }
}

// ---- reading values ----

/// The first value with a name.
pub open spec fn first_named(pairs: Seq<(Seq<char>, Tree)>, name: Seq<char>) -> Option<Tree>
    decreases pairs.len(),
{
    if pairs.len() == 0 {
        None
    } else if pairs[0].0 == name {
        Some(pairs[0].1)
    } else {
        first_named(pairs.drop_first(), name)
    }
}

/// The value with a name, where there are named values and one has it.
pub open spec fn field(t: Tree, name: Seq<char>) -> Option<Tree> {
    match t {
        Tree::Table(pairs) => first_named(pairs, name),
        _ => None,
    }
}

/// The value that two names lead to.
pub open spec fn field2(t: Tree, outer: Seq<char>, inner: Seq<char>) -> Option<Tree> {
    match field(t, outer) {
        Some(v) => field(v, inner),
        None => None,
    }
}

/// The text of a value that is one.
pub open spec fn as_text(t: Option<Tree>) -> Option<Seq<char>> {
    match t {
        Some(Tree::Text(s)) => Some(s),
        _ => None,
    }
}

/// The number that is not negative of a value that is one.
pub open spec fn as_unsigned(t: Option<Tree>) -> Option<u64> {
    match t {
        Some(Tree::Number { unsigned, .. }) => unsigned,
        _ => None,
    }
}

/// The number with a sign of a value that is one.
pub open spec fn as_signed(t: Option<Tree>) -> Option<i64> {
    match t {
        Some(Tree::Number { signed, .. }) => signed,
        _ => None,
    }
}

/// The items of a value that is a list; none of any other.
pub open spec fn as_items(t: Option<Tree>) -> Seq<Tree> {
    match t {
        Some(Tree::List(items)) => items,
        _ => Seq::empty(),
    }
}

/// What an optional value holds.
pub open spec fn tree_in(v: Option<&Node>) -> Option<Tree> {
    match v {
        Some(x) => Some(tree(*x)),
        None => None,
    }
}

/// What the named values hold.
pub open spec fn pair_trees(pairs: Seq<(String, Node)>) -> Seq<(Seq<char>, Tree)> {
    Seq::new(pairs.len(), |i: int| (pairs[i].0@, tree(pairs[i].1)))
}

proof fn table_tree(pairs: Vec<(String, Node)>)
    ensures
        tree(Node::Table(pairs)) == Tree::Table(pair_trees(pairs@)),
{
    assert(tree(Node::Table(pairs))->Table_0 =~= pair_trees(pairs@));
}

/// The value with a name.
pub fn get<'a>(v: &'a Node, name: &str) -> (r: Option<&'a Node>)
    ensures
        tree_in(r) == field(tree(*v), name@),
{
    match v {
        Node::Table(pairs) => {
            proof {
                table_tree(*pairs);
            }
            let ghost all = pair_trees(pairs@);
            let mut i: usize = 0;
            assert(all.skip(0) =~= all);
            while i < pairs.len()
                invariant
                    i <= pairs.len(),
                    all == pair_trees(pairs@),
                    tree(*v) == Tree::Table(all),
                    first_named(all, name@) == first_named(all.skip(i as int), name@),
                decreases pairs.len() - i,
            {
                assert(all.skip(i as int)[0] == all[i as int]);
                assert(all.skip(i as int).drop_first() =~= all.skip(i + 1));
                if same_text(pairs[i].0.as_str(), name) {
                    return Some(&pairs[i].1);
                }
                i = i + 1;
            }
            None
        },
        _ => None,
    }
}

/// The value that two names lead to.
pub fn get2<'a>(v: &'a Node, outer: &str, inner: &str) -> (r: Option<&'a Node>)
    ensures
        tree_in(r) == field2(tree(*v), outer@, inner@),
{
    match get(v, outer) {
        Some(x) => get(x, inner),
        None => None,
    }
}

/// The text of a value that is one.
pub fn text_in<'a>(v: Option<&'a Node>) -> (r: Option<&'a String>)
    ensures
        r is Some <==> as_text(tree_in(v)) is Some,
        r matches Some(s) ==> as_text(tree_in(v)) == Some(s@),
{
    match v {
        Some(Node::Text(s)) => Some(s),
        _ => None,
    }
}

/// The number that is not negative of a value that is one.
pub fn unsigned_in(v: Option<&Node>) -> (r: Option<u64>)
    ensures
        r == as_unsigned(tree_in(v)),
{
    match v {
        Some(Node::Number { unsigned, .. }) => *unsigned,
        _ => None,
    }
}

/// The number with a sign of a value that is one.
pub fn signed_in(v: Option<&Node>) -> (r: Option<i64>)
    ensures
        r == as_signed(tree_in(v)),
{
    match v {
        Some(Node::Number { signed, .. }) => *signed,
        _ => None,
    }
}

/// What the items of a list hold.
pub open spec fn item_trees(items: Seq<Node>) -> Seq<Tree> {
    Seq::new(items.len(), |i: int| tree(items[i]))
}

/// The items of a value that is a list.
pub fn items_in<'a>(v: Option<&'a Node>) -> (r: Option<&'a Vec<Node>>)
    ensures
        r matches Some(items) ==> as_items(tree_in(v)) == item_trees(items@),
        r is None ==> as_items(tree_in(v)).len() == 0,
{
    match v {
        Some(Node::List(items)) => {
            assert(tree(Node::List(*items))->List_0 =~= item_trees(items@));
            Some(items)
        },
        _ => None,
    }
}

// ---- tables ----

/// Named values by their names; of two with one name the later one counts.
pub open spec fn by_name(pairs: Seq<(Seq<char>, Tree)>) -> Map<Seq<char>, Tree>
    decreases pairs.len(),
{
    if pairs.len() == 0 {
        Map::empty()
    } else {
        by_name(pairs.drop_last()).insert(pairs.last().0, pairs.last().1)
    }
}

/// The named values of a table; none of any other value.
pub open spec fn entries(t: Tree) -> Map<Seq<char>, Tree> {
    match t {
        Tree::Table(pairs) => by_name(pairs),
        _ => Map::empty(),
    }
}

proof fn by_name_update(pairs: Seq<(Seq<char>, Tree)>, i: int, value: Tree)
    requires
        0 <= i < pairs.len(),
        forall|j: int| i < j < pairs.len() ==> (#[trigger] pairs[j]).0 != pairs[i].0,
    ensures
        by_name(pairs.update(i, (pairs[i].0, value))) == by_name(pairs).insert(pairs[i].0, value),
    decreases pairs.len(),
{
    let changed = pairs.update(i, (pairs[i].0, value));
    if i == pairs.len() - 1 {
        assert(changed.drop_last() =~= pairs.drop_last());
        assert(by_name(changed) =~= by_name(pairs).insert(pairs[i].0, value));
    } else {
        by_name_update(pairs.drop_last(), i, value);
        assert(changed.drop_last() =~= pairs.drop_last().update(i, (pairs[i].0, value)));
        assert(pairs[pairs.len() - 1].0 != pairs[i].0);
        assert(by_name(changed) =~= by_name(pairs).insert(pairs[i].0, value));
    }
}

/// Puts a value under a name, in place of the one that had it.
pub fn put(pairs: &mut Vec<(String, Node)>, name: String, value: Node)
    ensures
        by_name(pair_trees(final(pairs)@)) == by_name(pair_trees(old(pairs)@)).insert(
            name@,
            tree(value),
        ),
{
    let mut i: usize = pairs.len();
    while i > 0
        invariant
            i <= pairs.len(),
            pairs@ == old(pairs)@,
            forall|j: int| i <= j < pairs.len() ==> (#[trigger] pairs@[j]).0@ != name@,
        decreases i,
    {
        i = i - 1;
        if same_text(pairs[i].0.as_str(), name.as_str()) {
            let same = pairs[i].0.clone();
            proof {
                by_name_update(pair_trees(pairs@), i as int, tree(value));
            }
            pairs.set(i, (same, value));
            assert(pair_trees(pairs@) =~= pair_trees(old(pairs)@).update(
                i as int,
                (name@, tree(value)),
            ));
            return;
        }
    }
    pairs.push((name, value));
    assert(pair_trees(pairs@).drop_last() =~= pair_trees(old(pairs)@));
}

/// One table laid over another: where both have a name, the upper one counts. Of two
/// values that are not both tables the lower one stays.
pub open spec fn is_merged(r: Tree, base: Tree, over: Tree) -> bool {
    if base is Table && over is Table {
        r is Table && entries(r) == entries(base).union_prefer_right(entries(over))
    } else {
        r == base
    }
}

/// Lays one table over another.
pub fn merge(base: Node, over: Node) -> (r: Node)
    ensures
        is_merged(tree(r), tree(base), tree(over)),
{
    match (base, over) {
        (Node::Table(lower), Node::Table(upper)) => {
            let mut out = lower;
            let mut rest = upper;
            let ghost low = by_name(pair_trees(lower@));
            let ghost mut done: Seq<(String, Node)> = Seq::empty();
            assert(by_name(pair_trees(out@)) =~= low.union_prefer_right(by_name(pair_trees(done))));
            assert(done + rest@ =~= upper@);
            while rest.len() > 0
                invariant
                    by_name(pair_trees(out@)) == low.union_prefer_right(by_name(pair_trees(done))),
                    done + rest@ == upper@,
                decreases rest.len(),
            {
                let (name, value) = rest.remove(0);
                proof {
                    let next = done.push((name, value));
                    assert(pair_trees(next).drop_last() =~= pair_trees(done));
                    assert(next + rest@ =~= upper@);
                    assert(by_name(pair_trees(out@)).insert(name@, tree(value))
                        =~= low.union_prefer_right(by_name(pair_trees(next))));
                    done = next;
                }
                put(&mut out, name, value);
            }
            assert(done =~= upper@);
            proof {
                table_tree(lower);
                table_tree(upper);
                table_tree(out);
            }
            Node::Table(out)
        },
        (b, _) => b,
    }
}

// ---- values are found by their names ----

/// A value is found by its name where no earlier one has the name; a name that no value has
/// leads to nothing.
pub proof fn the_first_with_a_name_is_found(pairs: Seq<(Seq<char>, Tree)>, name: Seq<char>, i: int)
    ensures
        0 <= i < pairs.len() && pairs[i].0 == name && (forall|j: int|
            0 <= j < i ==> (#[trigger] pairs[j]).0 != name) ==> first_named(pairs, name) == Some(
            pairs[i].1,
        ),
        (forall|j: int| 0 <= j < pairs.len() ==> (#[trigger] pairs[j]).0 != name) ==> first_named(
            pairs,
            name,
        ) is None,
    decreases pairs.len(),
{
    if pairs.len() > 0 {
        let more = pairs.drop_first();
        the_first_with_a_name_is_found(more, name, i - 1);
        if 0 < i < pairs.len() && pairs[i].0 == name && (forall|j: int|
            0 <= j < i ==> (#[trigger] pairs[j]).0 != name) {
            assert(pairs[0].0 != name);
            assert(more[i - 1] == pairs[i]);
            assert forall|j: int| 0 <= j < i - 1 implies (#[trigger] more[j]).0 != name by {
                assert(more[j] == pairs[j + 1]);
            }
        }
        if forall|j: int| 0 <= j < pairs.len() ==> (#[trigger] pairs[j]).0 != name {
            assert(pairs[0].0 != name);
            assert forall|j: int| 0 <= j < more.len() implies (#[trigger] more[j]).0 != name by {
                assert(more[j] == pairs[j + 1]);
            }
        }
    }
}

/// Of the values of a table that share a name the last one counts, and a table has no other
/// names than those of its values.
pub proof fn the_last_with_a_name_counts(pairs: Seq<(Seq<char>, Tree)>, name: Seq<char>, i: int)
    ensures
        0 <= i < pairs.len() && pairs[i].0 == name && (forall|j: int|
            i < j < pairs.len() ==> (#[trigger] pairs[j]).0 != name) ==> by_name(
            pairs,
        ).contains_key(name) && by_name(pairs)[name] == pairs[i].1,
        (forall|j: int| 0 <= j < pairs.len() ==> (#[trigger] pairs[j]).0 != name) ==> !by_name(
            pairs,
        ).contains_key(name),
    decreases pairs.len(),
{
    if pairs.len() > 0 {
        let fewer = pairs.drop_last();
        let last = pairs.len() - 1;
        the_last_with_a_name_counts(fewer, name, i);
        if 0 <= i < last && pairs[i].0 == name && (forall|j: int|
            i < j < pairs.len() ==> (#[trigger] pairs[j]).0 != name) {
            assert(pairs[last].0 != name);
            assert(fewer[i] == pairs[i]);
            assert forall|j: int| i < j < fewer.len() implies (#[trigger] fewer[j]).0 != name by {
                assert(fewer[j] == pairs[j]);
            }
        }
        if forall|j: int| 0 <= j < pairs.len() ==> (#[trigger] pairs[j]).0 != name {
            assert(pairs[last].0 != name);
            assert forall|j: int| 0 <= j < fewer.len() implies (#[trigger] fewer[j]).0 != name by {
                assert(fewer[j] == pairs[j]);
            }
        }
    }
}

/// In a table whose names differ each value is found by its name in both ways.
pub proof fn values_of_different_names_are_found(pairs: Seq<(Seq<char>, Tree)>, i: int)
    requires
        0 <= i < pairs.len(),
        forall|a: int, b: int| 0 <= a < b < pairs.len() ==> pairs[a].0 != pairs[b].0,
    ensures
        field(Tree::Table(pairs), pairs[i].0) == Some(pairs[i].1),
        entries(Tree::Table(pairs)).contains_key(pairs[i].0),
        entries(Tree::Table(pairs))[pairs[i].0] == pairs[i].1,
{
    the_first_with_a_name_is_found(pairs, pairs[i].0, i);
    the_last_with_a_name_counts(pairs, pairs[i].0, i);
}

/// An integer is read as one with its sign, and as one without where it is not negative.
pub proof fn integers_are_read_with_their_sign(n: i64)
    ensures
        as_signed(Some(integer_tree(n))) == Some(n),
        n >= 0 ==> as_unsigned(Some(integer_tree(n))) == Some(n as u64),
        n < 0 ==> as_unsigned(Some(integer_tree(n))) is None,
        as_text(Some(integer_tree(n))) is None,
{
}

/// Two names lead through the value of the first to that of the second.
pub proof fn two_names_lead_inwards(
    outer: Seq<char>,
    inner: Seq<char>,
    value: Tree,
    other: Seq<char>,
)
    requires
        other != outer,
    ensures
        field2(Tree::Table(seq![(outer, Tree::Table(seq![(inner, value)]))]), outer, inner) == Some(
            value,
        ),
        field2(Tree::Table(seq![(outer, Tree::Table(seq![(inner, value)]))]), other, inner) is None,
{
    let inside = seq![(inner, value)];
    let outside = seq![(outer, Tree::Table(inside))];
    the_first_with_a_name_is_found(inside, inner, 0);
    the_first_with_a_name_is_found(outside, outer, 0);
    the_first_with_a_name_is_found(outside, other, 0);
}

} // verus!
