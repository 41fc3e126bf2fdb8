//! Boxes and connectors as a CRDT (yrs), kept in a sidecar next to the
//! board's own file. Two writers each change their own document and persist
//! its full state; picking up the other's state merges rather than
//! overwrites, so neither has to choose whose change wins the way a
//! whole-file save would.

use vstd::prelude::*;
use yrs::types::ToJson;
use yrs::updates::decoder::Decode;
use yrs::{Any, Doc, MapPrelim, ReadTxn, StateVector, Transact, Update};

use crate::sidecar::{can_merge, is_small, mergeable, readable, CLIENT_END, CLOCK_END};
use crate::text::{opt_view, same_str};

verus! {

/// `yrs::Doc`, a document that merges with others.
#[verifier::external_type_specification]
#[verifier::external_body]
pub struct ExDoc(Doc);

/// A plain value in a document.
#[derive(Debug)]
pub enum Value {
    Int(i64),
    Text(String),
    /// Null, or anything that is neither a number nor a string.
    Other,
}

/// A plain value, its text as characters.
pub ghost enum ValueView {
    Int(i64),
    Text(Seq<char>),
    Other,
}

impl View for Value {
    type V = ValueView;

    open spec fn view(&self) -> ValueView {
        match self {
            Value::Int(n) => ValueView::Int(*n),
            Value::Text(s) => ValueView::Text(s@),
            Value::Other => ValueView::Other,
        }
    }
}

/// The fields of one entry.
pub type Fields = Map<Seq<char>, ValueView>;

/// The entries of one of a document's maps; none for an entry that is no
/// map itself.
pub type Entries = Map<Seq<char>, Option<Fields>>;

/// What a document's map of the given name holds.
pub uninterp spec fn doc_entries(doc: Doc, root: Seq<char>) -> Entries;

/// What merging an encoded state into a document gives: whether it was
/// taken, and the entries of "nodes" and "edges" after it.
pub uninterp spec fn merge_of(doc: Doc, bytes: Seq<u8>) -> (bool, Entries, Entries);

/// Whether nothing was ever put into a document, removed from it or merged
/// into it.
pub uninterp spec fn doc_is_new(doc: Doc) -> bool;

/// Whether a document is one of boards: under its named maps there are maps
/// of plain values, and nothing in it waits for a change that it does not
/// have.
pub uninterp spec fn doc_is_sound(doc: Doc) -> bool;

/// The id that a document writes under.
pub uninterp spec fn doc_client(doc: Doc) -> u64;

/// How many changes a document made itself.
pub uninterp spec fn doc_clock(doc: Doc) -> nat;

/// The encoded state of a document.
pub uninterp spec fn state_of(doc: Doc) -> Seq<u8>;

/// Whether bytes can be merged into a document.
pub open spec fn fits_into(doc: Doc, bytes: Seq<u8>) -> bool {
    mergeable(state_of(doc), doc_client(doc), doc_clock(doc), bytes)
}

/// What comes of bytes that may or may not be a state of the same board:
/// what fits is merged, anything else is refused and changes nothing.
pub open spec fn merged(doc: Doc, bytes: Seq<u8>) -> (bool, Entries, Entries) {
    if fits_into(doc, bytes) {
        merge_of(doc, bytes)
    } else {
        (false, doc_entries(doc, "nodes"@), doc_entries(doc, "edges"@))
    }
}

/// Whether an encoded state gives every new document the given entries.
pub open spec fn carries(bytes: Seq<u8>, nodes: Entries, edges: Entries) -> bool {
    forall|fresh: Doc| #[trigger]
        doc_is_new(fresh) ==> merge_of(fresh, bytes) == (true, nodes, edges)
}

/// Whether a document is small enough for its state to be read again: it
/// made fewer changes than a clock may count, and its state is small.
pub open spec fn in_bounds(doc: Doc) -> bool {
    doc_clock(doc) < CLOCK_END && is_small(state_of(doc))
}

/// No entries at all.
pub open spec fn no_entries() -> Entries {
    Map::empty()
}

/// The fields that a list of names and values makes; a later value for a
/// name replaces an earlier one.
pub open spec fn fields_map(list: Seq<(String, Value)>) -> Fields
    decreases list.len(),
{
    if list.len() == 0 {
        Map::empty()
    } else {
        fields_map(list.drop_last()).insert(list.last().0@, list.last().1@)
    }
}

/// The fields of an entry that may be no map.
pub open spec fn opt_fields_map(list: Option<Vec<(String, Value)>>) -> Option<Fields> {
    match list {
        Some(l) => Some(fields_map(l@)),
        None => None,
    }
}

/// Whether a list holds exactly the entries of a map, each once.
pub open spec fn lists_entries(
    list: Seq<(String, Option<Vec<(String, Value)>>)>,
    entries: Entries,
) -> bool {
    &&& forall|k: int|
        0 <= k < list.len() ==> entries.contains_key((#[trigger] list[k]).0@)
            && entries[list[k].0@] == opt_fields_map(list[k].1)
    &&& forall|j: int, k: int|
        0 <= j < k < list.len() ==> (#[trigger] list[j]).0@ != (#[trigger] list[k]).0@
    &&& forall|id: Seq<char>| #[trigger]
        entries.contains_key(id) ==> exists|k: int|
            0 <= k < list.len() && (#[trigger] list[k]).0@ == id
}

/// Calls `Doc::with_client_id` of yrs: a document with nothing in it. The
/// id must fit in 53 bits. Its state is two zeros: no writers, and nothing
/// deleted.
#[verifier::external_body]
fn new_doc(client_id: u64) -> (r: Doc)
    requires
        client_id < CLIENT_END,
    ensures
        doc_is_new(r),
        doc_is_sound(r),
        doc_client(r) == client_id,
        doc_clock(r) == 0,
        state_of(r) == seq![0u8, 0u8],
        doc_entries(r, "nodes"@) == no_entries(),
        doc_entries(r, "edges"@) == no_entries(),
{
    Doc::with_client_id(client_id)
}

/// Calls `Map::insert` of yrs with a map of plain values: the entry under
/// `id` becomes a map with those fields; every other entry stays, and so
/// does every other map of the document. That takes a change for the map and
/// at most one for each field.
#[verifier::external_body]
fn put_entry(doc: &mut Doc, root: &str, id: &str, fields: Vec<(String, Value)>)
    requires
        doc_is_sound(*old(doc)),
        doc_clock(*old(doc)) + fields@.len() + 1 < CLOCK_END,
    ensures
        doc_is_sound(*final(doc)),
        doc_client(*final(doc)) == doc_client(*old(doc)),
        doc_clock(*final(doc)) <= doc_clock(*old(doc)) + fields@.len() + 1,
        doc_entries(*final(doc), root@) == doc_entries(*old(doc), root@).insert(
            id@,
            Some(fields_map(fields@)),
        ),
        forall|other: Seq<char>|
            other != root@ ==> #[trigger] doc_entries(*final(doc), other) == doc_entries(
                *old(doc),
                other,
            ),
{
    let map = doc.get_or_insert_map(root);
    let value = |v: Value| match v {
        Value::Int(n) => Any::BigInt(n),
        Value::Text(s) => Any::String(s.into()),
        Value::Other => Any::Null,
    };
    let entry: MapPrelim = fields.into_iter().map(|(k, v)| (k, value(v))).collect();
    yrs::Map::insert(&map, &mut doc.transact_mut(), id, entry);
}

/// Calls `Map::remove` of yrs: the entry under `id` is gone; every other
/// entry stays, and so does every other map of the document. That is no
/// change that a clock counts.
#[verifier::external_body]
fn drop_entry(doc: &mut Doc, root: &str, id: &str)
    requires
        doc_is_sound(*old(doc)),
    ensures
        doc_is_sound(*final(doc)),
        doc_client(*final(doc)) == doc_client(*old(doc)),
        doc_clock(*final(doc)) == doc_clock(*old(doc)),
        doc_entries(*final(doc), root@) == doc_entries(*old(doc), root@).remove(id@),
        forall|other: Seq<char>|
            other != root@ ==> #[trigger] doc_entries(*final(doc), other) == doc_entries(
                *old(doc),
                other,
            ),
{
    let map = doc.get_or_insert_map(root);
    yrs::Map::remove(&map, &mut doc.transact_mut(), id);
}

/// Calls `Map::iter` of yrs and `ToJson::to_json` on each value: every
/// entry of the map once, in no particular order. Of an entry that is a map
/// itself, every field once: integers and other numbers as integers,
/// strings as text. Only of a document of boards: `to_json` goes as deep as
/// maps are nested.
#[verifier::external_body]
fn read_entries(doc: &Doc, root: &str) -> (r: Vec<(String, Option<Vec<(String, Value)>>)>)
    requires
        doc_is_sound(*doc),
    ensures
        lists_entries(r@, doc_entries(*doc, root@)),
{
    let (map, txn) = (doc.get_or_insert_map(root), doc.transact());
    let value = |v: &Any| match v {
        Any::BigInt(n) => Value::Int(*n),
        Any::Number(n) => Value::Int(*n as i64),
        Any::String(s) => Value::Text(s.to_string()),
        _ => Value::Other,
    };
    let fields = |v: yrs::Out| match v.to_json(&txn) {
        Any::Map(m) => Some(m.iter().map(|(k, v)| (k.clone(), value(v))).collect()),
        _ => None,
    };
    yrs::Map::iter(&map, &txn).map(|(k, v)| (k.to_string(), fields(v))).collect()
}

/// Calls `Doc::client_id` of yrs: the id that the document writes under.
#[verifier::external_body]
fn own_client(doc: &Doc) -> (r: u64)
    ensures
        r == doc_client(*doc),
{
    doc.client_id().get()
}

/// Calls `ReadTxn::state_vector` of yrs, and asks it for the document's own
/// id: how many changes the document made.
#[verifier::external_body]
fn own_clock(doc: &Doc) -> (r: u64)
    ensures
        r == doc_clock(*doc),
{
    doc.transact().state_vector().get(&doc.client_id()) as u64
}

/// Calls `ReadTxn::encode_state_as_update_v1` of yrs with an empty state
/// vector: the document's full state, a function of the document alone. Of a
/// document of boards, merging it back into the same document is taken and
/// changes nothing, merging it into a new document gives that the same
/// entries, and within the bounds of clocks and sizes it can be read.
#[verifier::external_body]
fn encode_state(doc: &Doc) -> (r: Vec<u8>)
    ensures
        r@ == state_of(*doc),
        doc_is_sound(*doc) ==> merge_of(*doc, r@) == (
            true,
            doc_entries(*doc, "nodes"@),
            doc_entries(*doc, "edges"@),
        ),
        doc_is_sound(*doc) ==> carries(
            r@,
            doc_entries(*doc, "nodes"@),
            doc_entries(*doc, "edges"@),
        ),
        doc_is_sound(*doc) && doc_clock(*doc) < CLOCK_END && is_small(r@) ==> readable(r@),
{
    doc.transact().encode_state_as_update_v1(&StateVector::default())
}

/// Calls `Update::decode_v1` and `TransactionMut::apply_update` of yrs:
/// whether the bytes were an update that could be applied, and the entries
/// after it, both a function of the document and the bytes. Which of two
/// writers' values an entry ends with is not said: it goes by the order
/// that yrs gives their changes. Only a whole state that was read through
/// before and that agrees with the document is handed over: yrs asserts that
/// client ids have 53 bits, adds clocks up in 32 bits, takes texts for UTF-8
/// without a look, keeps what refers to changes that are not there, calls
/// itself for each writer that it is done with, and deletes as deep as maps
/// are nested. With such a state the document stays one of boards, and makes
/// no change of its own.
#[verifier::external_body]
fn apply_state(doc: &mut Doc, bytes: &[u8]) -> (r: bool)
    requires
        doc_is_sound(*old(doc)),
        fits_into(*old(doc), bytes@),
    ensures
        doc_is_sound(*final(doc)),
        doc_client(*final(doc)) == doc_client(*old(doc)),
        doc_clock(*final(doc)) == doc_clock(*old(doc)),
        (r, doc_entries(*final(doc), "nodes"@), doc_entries(*final(doc), "edges"@)) == merge_of(
            *old(doc),
            bytes@,
        ),
{
    match Update::decode_v1(bytes) {
        Ok(update) => doc.transact_mut().apply_update(update).is_ok(),
        Err(_) => false,
    }
}

#[derive(Debug)]
pub struct NodeFields {
    pub x: i64,
    pub y: i64,
    pub w: i64,
    pub h: i64,
    /// The box's own content: display text for a text box, a path for a
    /// file box, a URL for a link, a label for a group. Which one, `kind`
    /// says.
    pub text: String,
    /// A file box's anchor within its file, none for every other kind.
    pub subpath: Option<String>,
    pub color: Option<String>,
    pub shape: String,
    /// "text" | "file" | "link" | "group".
    pub kind: String,
}

/// A box's fields, their texts as characters.
pub ghost struct NodeFieldsView {
    pub x: i64,
    pub y: i64,
    pub w: i64,
    pub h: i64,
    pub text: Seq<char>,
    pub subpath: Option<Seq<char>>,
    pub color: Option<Seq<char>>,
    pub shape: Seq<char>,
    pub kind: Seq<char>,
}

impl View for NodeFields {
    type V = NodeFieldsView;

    open spec fn view(&self) -> NodeFieldsView {
        NodeFieldsView {
            x: self.x,
            y: self.y,
            w: self.w,
            h: self.h,
            text: self.text@,
            subpath: opt_view(self.subpath),
            color: opt_view(self.color),
            shape: self.shape@,
            kind: self.kind@,
        }
    }
}

#[derive(Debug)]
pub struct EdgeFields {
    pub from: String,
    pub to: String,
    pub from_side: Option<String>,
    pub to_side: Option<String>,
    pub from_end: String,
    pub to_end: String,
    pub from_row: Option<i64>,
    pub from_col: Option<i64>,
    pub to_row: Option<i64>,
    pub to_col: Option<i64>,
    pub color: Option<String>,
    pub label: Option<String>,
}

/// A connector's fields, their texts as characters.
pub ghost struct EdgeFieldsView {
    pub from: Seq<char>,
    pub to: Seq<char>,
    pub from_side: Option<Seq<char>>,
    pub to_side: Option<Seq<char>>,
    pub from_end: Seq<char>,
    pub to_end: Seq<char>,
    pub from_row: Option<i64>,
    pub from_col: Option<i64>,
    pub to_row: Option<i64>,
    pub to_col: Option<i64>,
    pub color: Option<Seq<char>>,
    pub label: Option<Seq<char>>,
}

impl View for EdgeFields {
    type V = EdgeFieldsView;

    open spec fn view(&self) -> EdgeFieldsView {
        EdgeFieldsView {
            from: self.from@,
            to: self.to@,
            from_side: opt_view(self.from_side),
            to_side: opt_view(self.to_side),
            from_end: self.from_end@,
            to_end: self.to_end@,
            from_row: self.from_row,
            from_col: self.from_col,
            to_row: self.to_row,
            to_col: self.to_col,
            color: opt_view(self.color),
            label: opt_view(self.label),
        }
    }
}

/// An optional text as a value.
pub open spec fn opt_text(s: Option<Seq<char>>) -> ValueView {
    match s {
        Some(s) => ValueView::Text(s),
        None => ValueView::Other,
    }
}

/// An optional number as a value.
pub open spec fn opt_int(n: Option<i64>) -> ValueView {
    match n {
        Some(n) => ValueView::Int(n),
        None => ValueView::Other,
    }
}

/// A box's fields as an entry.
pub open spec fn node_entry(f: NodeFieldsView) -> Fields {
    Map::empty().insert("x"@, ValueView::Int(f.x)).insert("y"@, ValueView::Int(f.y)).insert(
        "w"@,
        ValueView::Int(f.w),
    ).insert("h"@, ValueView::Int(f.h)).insert("text"@, ValueView::Text(f.text)).insert(
        "subpath"@,
        opt_text(f.subpath),
    ).insert("color"@, opt_text(f.color)).insert("shape"@, ValueView::Text(f.shape)).insert(
        "kind"@,
        ValueView::Text(f.kind),
    )
}

/// A connector's fields as an entry.
pub open spec fn edge_entry(f: EdgeFieldsView) -> Fields {
    Map::empty().insert("from"@, ValueView::Text(f.from)).insert(
        "to"@,
        ValueView::Text(f.to),
    ).insert("from_side"@, opt_text(f.from_side)).insert("to_side"@, opt_text(f.to_side)).insert(
        "from_end"@,
        ValueView::Text(f.from_end),
    ).insert("to_end"@, ValueView::Text(f.to_end)).insert("from_row"@, opt_int(f.from_row)).insert(
        "from_col"@,
        opt_int(f.from_col),
    ).insert("to_row"@, opt_int(f.to_row)).insert("to_col"@, opt_int(f.to_col)).insert(
        "color"@,
        opt_text(f.color),
    ).insert("label"@, opt_text(f.label))
}

/// A text field, if it is one.
pub open spec fn text_in(m: Fields, key: Seq<char>) -> Option<Seq<char>> {
    if m.contains_key(key) {
        match m[key] {
            ValueView::Text(s) => Some(s),
            _ => None,
        }
    } else {
        None
    }
}

/// A number field, if it is one.
pub open spec fn int_in(m: Fields, key: Seq<char>) -> Option<i64> {
    if m.contains_key(key) {
        match m[key] {
            ValueView::Int(n) => Some(n),
            _ => None,
        }
    } else {
        None
    }
}

/// A text, empty where there is none.
pub open spec fn text_or_empty(s: Option<Seq<char>>) -> Seq<char> {
    match s {
        Some(s) => s,
        None => Seq::empty(),
    }
}

/// A number, 0 where there is none.
pub open spec fn int_or_zero(n: Option<i64>) -> i64 {
    match n {
        Some(n) => n,
        None => 0,
    }
}

/// The box that an entry describes. A field that is missing or of another
/// kind counts as empty.
pub open spec fn node_of_entry(m: Fields) -> NodeFieldsView {
    NodeFieldsView {
        x: int_or_zero(int_in(m, "x"@)),
        y: int_or_zero(int_in(m, "y"@)),
        w: int_or_zero(int_in(m, "w"@)),
        h: int_or_zero(int_in(m, "h"@)),
        text: text_or_empty(text_in(m, "text"@)),
        subpath: text_in(m, "subpath"@),
        color: text_in(m, "color"@),
        shape: text_or_empty(text_in(m, "shape"@)),
        kind: text_or_empty(text_in(m, "kind"@)),
    }
}

/// The connector that an entry describes. A field that is missing or of
/// another kind counts as empty.
pub open spec fn edge_of_entry(m: Fields) -> EdgeFieldsView {
    EdgeFieldsView {
        from: text_or_empty(text_in(m, "from"@)),
        to: text_or_empty(text_in(m, "to"@)),
        from_side: text_in(m, "from_side"@),
        to_side: text_in(m, "to_side"@),
        from_end: text_or_empty(text_in(m, "from_end"@)),
        to_end: text_or_empty(text_in(m, "to_end"@)),
        from_row: int_in(m, "from_row"@),
        from_col: int_in(m, "from_col"@),
        to_row: int_in(m, "to_row"@),
        to_col: int_in(m, "to_col"@),
        color: text_in(m, "color"@),
        label: text_in(m, "label"@),
    }
}

/// Whether a list holds every box of a map, each once.
pub open spec fn is_node_snapshot(list: Seq<(String, NodeFields)>, entries: Entries) -> bool {
    &&& forall|k: int|
        0 <= k < list.len() ==> entries.contains_key((#[trigger] list[k]).0@)
            && entries[list[k].0@] is Some && list[k].1@ == node_of_entry(entries[list[k].0@]->0)
    &&& forall|j: int, k: int|
        0 <= j < k < list.len() ==> (#[trigger] list[j]).0@ != (#[trigger] list[k]).0@
    &&& forall|id: Seq<char>| #[trigger]
        entries.contains_key(id) && entries[id] is Some ==> exists|k: int|
            0 <= k < list.len() && (#[trigger] list[k]).0@ == id
}

/// Whether a list holds every connector of a map, each once.
pub open spec fn is_edge_snapshot(list: Seq<(String, EdgeFields)>, entries: Entries) -> bool {
    &&& forall|k: int|
        0 <= k < list.len() ==> entries.contains_key((#[trigger] list[k]).0@)
            && entries[list[k].0@] is Some && list[k].1@ == edge_of_entry(entries[list[k].0@]->0)
    &&& forall|j: int, k: int|
        0 <= j < k < list.len() ==> (#[trigger] list[j]).0@ != (#[trigger] list[k]).0@
    &&& forall|id: Seq<char>| #[trigger]
        entries.contains_key(id) && entries[id] is Some ==> exists|k: int|
            0 <= k < list.len() && (#[trigger] list[k]).0@ == id
}

/// Adds a field to a list.
fn add_field(fields: &mut Vec<(String, Value)>, key: &str, value: Value)
    ensures
        final(fields)@.len() == old(fields)@.len() + 1,
        fields_map(final(fields)@) == fields_map(old(fields)@).insert(key@, value@),
{
    let ghost before = fields@;
    fields.push((key.to_owned(), value));
    proof {
        assert(fields@.drop_last() =~= before);
    }
}

fn text_value(s: &Option<String>) -> (r: Value)
    ensures
        r@ == opt_text(opt_view(*s)),
{
    match s {
        Some(s) => Value::Text(s.clone()),
        None => Value::Other,
    }
}

fn int_value(n: Option<i64>) -> (r: Value)
    ensures
        r@ == opt_int(n),
{
    match n {
        Some(n) => Value::Int(n),
        None => Value::Other,
    }
}

/// The value of a field.
fn find_field<'a>(fields: &'a Vec<(String, Value)>, key: &str) -> (r: Option<&'a Value>)
    ensures
        match r {
            Some(v) => fields_map(fields@).contains_key(key@) && fields_map(fields@)[key@] == v@,
            None => !fields_map(fields@).contains_key(key@),
        },
{
    let mut i: usize = fields.len();
    proof {
        assert(fields@.take(fields@.len() as int) =~= fields@);
    }
    while i > 0
        invariant
            i <= fields@.len(),
            fields_map(fields@).contains_key(key@) == fields_map(
                fields@.take(i as int),
            ).contains_key(key@),
            fields_map(fields@).contains_key(key@) ==> fields_map(fields@)[key@] == fields_map(
                fields@.take(i as int),
            )[key@],
        decreases i,
    {
        proof {
            assert(fields@.take(i as int).drop_last() =~= fields@.take(i - 1));
        }
        i -= 1;
        if same_str(fields[i].0.as_str(), key) {
            return Some(&fields[i].1);
        }
    }
    proof {
        assert(fields@.take(0) =~= Seq::empty());
    }
    None
}

fn find_text(fields: &Vec<(String, Value)>, key: &str) -> (r: Option<String>)
    ensures
        opt_view(r) == text_in(fields_map(fields@), key@),
{
    match find_field(fields, key) {
        Some(Value::Text(s)) => Some(s.clone()),
        _ => None,
    }
}

fn find_int(fields: &Vec<(String, Value)>, key: &str) -> (r: Option<i64>)
    ensures
        r == int_in(fields_map(fields@), key@),
{
    match find_field(fields, key) {
        Some(Value::Int(n)) => Some(*n),
        _ => None,
    }
}

fn get_text(fields: &Vec<(String, Value)>, key: &str) -> (r: String)
    ensures
        r@ == text_or_empty(text_in(fields_map(fields@), key@)),
{
    match find_text(fields, key) {
        Some(s) => s,
        None => {
            let r: String = String::new();
            proof {
                assert(r@ =~= Seq::empty());
            }
            r
        },
    }
}

fn get_int(fields: &Vec<(String, Value)>, key: &str) -> (r: i64)
    ensures
        r == int_or_zero(int_in(fields_map(fields@), key@)),
{
    match find_int(fields, key) {
        Some(n) => n,
        None => 0,
    }
}

/// How many changes writing a box takes: one for its entry and one for each
/// field.
pub const NODE_CHANGES: u64 = 10;

/// How many changes writing a connector takes.
pub const EDGE_CHANGES: u64 = 13;

/// When a file was last written.
#[derive(Debug, Clone, Copy, PartialEq, Eq, Structural)]
pub struct Stamp {
    pub secs: u64,
    pub nanos: u32,
}

/// A board's merge state, kept in lockstep with the board.
pub struct Collab {
    pub doc: Doc,
    pub mtime: Option<Stamp>,
}

/// The entries of a board's merge state.
pub ghost struct CollabView {
    pub nodes: Entries,
    pub edges: Entries,
    pub mtime: Option<Stamp>,
    /// Whether the document is one of boards, with nothing waiting in it.
    pub sound: bool,
}

impl View for Collab {
    type V = CollabView;

    open spec fn view(&self) -> CollabView {
        CollabView {
            nodes: doc_entries(self.doc, "nodes"@),
            edges: doc_entries(self.doc, "edges"@),
            mtime: self.mtime,
            sound: doc_is_sound(self.doc),
        }
    }
}

/// The view of a merge state that may be missing.
pub open spec fn collab_view(c: Option<Collab>) -> Option<CollabView> {
    match c {
        Some(c) => Some(c@),
        None => None,
    }
}

proof fn lemma_roots()
    ensures
        "nodes"@ != "edges"@,
{
    reveal_strlit("nodes");
    reveal_strlit("edges");
    assert("nodes"@[0] == 'n');
    assert("edges"@[0] == 'e');
}

/// The path of the sidecar next to a board.
pub fn crdt_path(canvas_path: &str) -> (r: String)
    ensures
        r@ == canvas_path@ + ".crdt"@,
{
    let mut s: String = canvas_path.to_owned();
    s.append(".crdt");
    s
}

impl Collab {
    /// A document with nothing in it. No other active writer may have the
    /// same id.
    pub fn open(client_id: u64) -> (r: Collab)
        requires
            client_id < CLIENT_END,
        ensures
            r@ == (CollabView {
                nodes: no_entries(),
                edges: no_entries(),
                mtime: None,
                sound: true,
            }),
            doc_is_new(r.doc),
            doc_client(r.doc) == client_id,
            doc_clock(r.doc) == 0,
            state_of(r.doc) == seq![0u8, 0u8],
    {
        Collab { doc: new_doc(client_id), mtime: None }
    }

    /// The full state, to be written to the sidecar.
    pub fn state(&self) -> (r: Vec<u8>)
        ensures
            r@ == state_of(self.doc),
            self@.sound && in_bounds(self.doc) ==> readable(r@),
            self@.sound ==> merge_of(self.doc, r@) == (true, self@.nodes, self@.edges),
            self@.sound ==> carries(r@, self@.nodes, self@.edges),
    {
        encode_state(&self.doc)
    }

    /// How many more changes the clock can count, none past its end.
    pub fn changes_left(&self) -> (r: u64)
        ensures
            r == if doc_clock(self.doc) < CLOCK_END {
                CLOCK_END - doc_clock(self.doc)
            } else {
                0
            },
    {
        let clock: u64 = own_clock(&self.doc);
        if clock < CLOCK_END {
            CLOCK_END - clock
        } else {
            0
        }
    }

    /// Notes when the sidecar was last written by this writer.
    pub fn note_written(&mut self, mtime: Option<Stamp>)
        ensures
            final(self)@ == (CollabView { mtime, ..old(self)@ }),
            final(self).doc == old(self).doc,
    {
        self.mtime = mtime;
    }

    /// Whether the sidecar moved since it was last looked at, given when it
    /// was written now. Notes the time if so.
    pub fn needs_read(&mut self, mtime: Option<Stamp>) -> (r: bool)
        ensures
            r == (mtime is Some && mtime != old(self).mtime),
            final(self).doc == old(self).doc,
            final(self).mtime == if r {
                mtime
            } else {
                old(self).mtime
            },
    {
        match mtime {
            None => false,
            Some(now) => {
                let same: bool = match self.mtime {
                    Some(before) => before == now,
                    None => false,
                };
                if same {
                    false
                } else {
                    self.mtime = Some(now);
                    true
                }
            },
        }
    }

    /// Merges in a state that another writer left in the sidecar. Bytes that
    /// are no state of the same board are refused.
    pub fn pull(&mut self, bytes: &[u8]) -> (r: bool)
        requires
            old(self)@.sound,
        ensures
            (r, final(self)@.nodes, final(self)@.edges) == merged(old(self).doc, bytes@),
            !fits_into(old(self).doc, bytes@) ==> final(self).doc == old(self).doc,
            final(self)@.sound,
            final(self).mtime == old(self).mtime,
            doc_client(final(self).doc) == doc_client(old(self).doc),
            doc_clock(final(self).doc) == doc_clock(old(self).doc),
    {
        let own: Vec<u8> = encode_state(&self.doc);
        let (client, clock): (u64, u64) = (own_client(&self.doc), own_clock(&self.doc));
        if can_merge(own.as_slice(), client, clock, bytes) {
            apply_state(&mut self.doc, bytes)
        } else {
            false
        }
    }

    /// Upserts a box's full field set as one entry.
    pub fn set_node(&mut self, id: &str, f: &NodeFields)
        requires
            old(self)@.sound,
            doc_clock(old(self).doc) + NODE_CHANGES < CLOCK_END,
        ensures
            doc_clock(final(self).doc) <= doc_clock(old(self).doc) + NODE_CHANGES,
            doc_client(final(self).doc) == doc_client(old(self).doc),
            final(self)@ == (CollabView {
                nodes: old(self)@.nodes.insert(id@, Some(node_entry(f@))),
                ..old(self)@
            }),
    {
        let mut fields: Vec<(String, Value)> = Vec::new();
        add_field(&mut fields, "x", Value::Int(f.x));
        add_field(&mut fields, "y", Value::Int(f.y));
        add_field(&mut fields, "w", Value::Int(f.w));
        add_field(&mut fields, "h", Value::Int(f.h));
        add_field(&mut fields, "text", Value::Text(f.text.clone()));
        add_field(&mut fields, "subpath", text_value(&f.subpath));
        add_field(&mut fields, "color", text_value(&f.color));
        add_field(&mut fields, "shape", Value::Text(f.shape.clone()));
        add_field(&mut fields, "kind", Value::Text(f.kind.clone()));
        proof {
            lemma_roots();
            assert(fields_map(fields@) == node_entry(f@));
        }
        put_entry(&mut self.doc, "nodes", id, fields);
    }

    pub fn remove_node(&mut self, id: &str)
        requires
            old(self)@.sound,
        ensures
            doc_clock(final(self).doc) == doc_clock(old(self).doc),
            doc_client(final(self).doc) == doc_client(old(self).doc),
            final(self)@ == (CollabView { nodes: old(self)@.nodes.remove(id@), ..old(self)@ }),
    {
        proof {
            lemma_roots();
        }
        drop_entry(&mut self.doc, "nodes", id);
    }

    /// The merged state of every box right now.
    pub fn snapshot(&self) -> (r: Vec<(String, NodeFields)>)
        requires
            self@.sound,
        ensures
            is_node_snapshot(r@, self@.nodes),
    {
        let list: Vec<(String, Option<Vec<(String, Value)>>)> = read_entries(&self.doc, "nodes");
        let ghost entries = self@.nodes;
        let mut out: Vec<(String, NodeFields)> = Vec::new();
        let mut i: usize = 0;
        while i < list.len()
            invariant
                i <= list@.len(),
                entries == self@.nodes,
                lists_entries(list@, entries),
                forall|k: int|
                    0 <= k < out@.len() ==> entries.contains_key((#[trigger] out@[k]).0@)
                        && entries[out@[k].0@] is Some && out@[k].1@ == node_of_entry(
                        entries[out@[k].0@]->0,
                    ),
                forall|k: int|
                    0 <= k < out@.len() ==> exists|j: int|
                        0 <= j < i && (#[trigger] list@[j]).0@ == (#[trigger] out@[k]).0@,
                forall|j: int, k: int|
                    0 <= j < k < out@.len() ==> (#[trigger] out@[j]).0@ != (#[trigger] out@[k]).0@,
                forall|j: int|
                    0 <= j < i && (#[trigger] list@[j]).1 is Some ==> exists|k: int|
                        0 <= k < out@.len() && (#[trigger] out@[k]).0@ == list@[j].0@,
            decreases list@.len() - i,
        {
            let ghost before = out@;
            match &list[i].1 {
                Some(fields) => {
                    let f = NodeFields {
                        x: get_int(fields, "x"),
                        y: get_int(fields, "y"),
                        w: get_int(fields, "w"),
                        h: get_int(fields, "h"),
                        text: get_text(fields, "text"),
                        subpath: find_text(fields, "subpath"),
                        color: find_text(fields, "color"),
                        shape: get_text(fields, "shape"),
                        kind: get_text(fields, "kind"),
                    };
                    out.push((list[i].0.clone(), f));
                },
                None => {},
            }
            proof {
                assert forall|k: int| 0 <= k < out@.len() implies exists|j: int|
                    0 <= j < i + 1 && (#[trigger] list@[j]).0@ == (#[trigger] out@[k]).0@ by {
                    if k < before.len() {
                        assert(out@[k] == before[k]);
                    } else {
                        assert(list@[i as int].0@ == out@[k].0@);
                    }
                }
                assert forall|j: int| 0 <= j < i + 1 && (#[trigger] list@[j]).1 is Some implies
                    exists|k: int| 0 <= k < out@.len() && (#[trigger] out@[k]).0@ == list@[j].0@ by {
                    if j < i {
                        let k = choose|k: int|
                            0 <= k < before.len() && (#[trigger] before[k]).0@ == list@[j].0@;
                        assert(out@[k].0@ == list@[j].0@);
                    } else {
                        assert(out@[out@.len() - 1].0@ == list@[j].0@);
                    }
                }
            }
            i += 1;
        }
        proof {
            assert forall|id: Seq<char>| #[trigger]
                entries.contains_key(id) && entries[id] is Some implies exists|k: int|
                0 <= k < out@.len() && (#[trigger] out@[k]).0@ == id by {
                let j = choose|j: int| 0 <= j < list@.len() && (#[trigger] list@[j]).0@ == id;
                assert(list@[j].1 is Some);
            }
        }
        out
    }

    /// Upserts a connector's full field set as one entry.
    pub fn set_edge(&mut self, id: &str, f: &EdgeFields)
        requires
            old(self)@.sound,
            doc_clock(old(self).doc) + EDGE_CHANGES < CLOCK_END,
        ensures
            doc_clock(final(self).doc) <= doc_clock(old(self).doc) + EDGE_CHANGES,
            doc_client(final(self).doc) == doc_client(old(self).doc),
            final(self)@ == (CollabView {
                edges: old(self)@.edges.insert(id@, Some(edge_entry(f@))),
                ..old(self)@
            }),
    {
        let mut fields: Vec<(String, Value)> = Vec::new();
        add_field(&mut fields, "from", Value::Text(f.from.clone()));
        add_field(&mut fields, "to", Value::Text(f.to.clone()));
        add_field(&mut fields, "from_side", text_value(&f.from_side));
        add_field(&mut fields, "to_side", text_value(&f.to_side));
        add_field(&mut fields, "from_end", Value::Text(f.from_end.clone()));
        add_field(&mut fields, "to_end", Value::Text(f.to_end.clone()));
        add_field(&mut fields, "from_row", int_value(f.from_row));
        add_field(&mut fields, "from_col", int_value(f.from_col));
        add_field(&mut fields, "to_row", int_value(f.to_row));
        add_field(&mut fields, "to_col", int_value(f.to_col));
        add_field(&mut fields, "color", text_value(&f.color));
        add_field(&mut fields, "label", text_value(&f.label));
        proof {
            lemma_roots();
            assert(fields_map(fields@) == edge_entry(f@));
        }
        put_entry(&mut self.doc, "edges", id, fields);
    }

    pub fn remove_edge(&mut self, id: &str)
        requires
            old(self)@.sound,
        ensures
            doc_clock(final(self).doc) == doc_clock(old(self).doc),
            doc_client(final(self).doc) == doc_client(old(self).doc),
            final(self)@ == (CollabView { edges: old(self)@.edges.remove(id@), ..old(self)@ }),
    {
        proof {
            lemma_roots();
        }
        drop_entry(&mut self.doc, "edges", id);
    }

    /// The merged state of every connector right now.
    pub fn snapshot_edges(&self) -> (r: Vec<(String, EdgeFields)>)
        requires
            self@.sound,
        ensures
            is_edge_snapshot(r@, self@.edges),
    {
        let list: Vec<(String, Option<Vec<(String, Value)>>)> = read_entries(&self.doc, "edges");
        let ghost entries = self@.edges;
        let mut out: Vec<(String, EdgeFields)> = Vec::new();
        let mut i: usize = 0;
        while i < list.len()
            invariant
                i <= list@.len(),
                entries == self@.edges,
                lists_entries(list@, entries),
                forall|k: int|
                    0 <= k < out@.len() ==> entries.contains_key((#[trigger] out@[k]).0@)
                        && entries[out@[k].0@] is Some && out@[k].1@ == edge_of_entry(
                        entries[out@[k].0@]->0,
                    ),
                forall|k: int|
                    0 <= k < out@.len() ==> exists|j: int|
                        0 <= j < i && (#[trigger] list@[j]).0@ == (#[trigger] out@[k]).0@,
                forall|j: int, k: int|
                    0 <= j < k < out@.len() ==> (#[trigger] out@[j]).0@ != (#[trigger] out@[k]).0@,
                forall|j: int|
                    0 <= j < i && (#[trigger] list@[j]).1 is Some ==> exists|k: int|
                        0 <= k < out@.len() && (#[trigger] out@[k]).0@ == list@[j].0@,
            decreases list@.len() - i,
        {
            let ghost before = out@;
            match &list[i].1 {
                Some(fields) => {
                    let f = EdgeFields {
                        from: get_text(fields, "from"),
                        to: get_text(fields, "to"),
                        from_side: find_text(fields, "from_side"),
                        to_side: find_text(fields, "to_side"),
                        from_end: get_text(fields, "from_end"),
                        to_end: get_text(fields, "to_end"),
                        from_row: find_int(fields, "from_row"),
                        from_col: find_int(fields, "from_col"),
                        to_row: find_int(fields, "to_row"),
                        to_col: find_int(fields, "to_col"),
                        color: find_text(fields, "color"),
                        label: find_text(fields, "label"),
                    };
                    out.push((list[i].0.clone(), f));
                },
                None => {},
            }
            proof {
                assert forall|k: int| 0 <= k < out@.len() implies exists|j: int|
                    0 <= j < i + 1 && (#[trigger] list@[j]).0@ == (#[trigger] out@[k]).0@ by {
                    if k < before.len() {
                        assert(out@[k] == before[k]);
                    } else {
                        assert(list@[i as int].0@ == out@[k].0@);
                    }
                }
                assert forall|j: int| 0 <= j < i + 1 && (#[trigger] list@[j]).1 is Some implies
                    exists|k: int| 0 <= k < out@.len() && (#[trigger] out@[k]).0@ == list@[j].0@ by {
                    if j < i {
                        let k = choose|k: int|
                            0 <= k < before.len() && (#[trigger] before[k]).0@ == list@[j].0@;
                        assert(out@[k].0@ == list@[j].0@);
                    } else {
                        assert(out@[out@.len() - 1].0@ == list@[j].0@);
                    }
                }
            }
            i += 1;
        }
        proof {
            assert forall|id: Seq<char>| #[trigger]
                entries.contains_key(id) && entries[id] is Some implies exists|k: int|
                0 <= k < out@.len() && (#[trigger] out@[k]).0@ == id by {
                let j = choose|j: int| 0 <= j < list@.len() && (#[trigger] list@[j]).0@ == id;
                assert(list@[j].1 is Some);
            }
        }
        out
    }
}

/// A box that is written reads back as it was.
pub proof fn lemma_node_reads_back(f: NodeFieldsView)
    ensures
        node_of_entry(node_entry(f)) == f,
{
    reveal_strlit("x");
    reveal_strlit("y");
    reveal_strlit("w");
    reveal_strlit("h");
    reveal_strlit("text");
    reveal_strlit("subpath");
    reveal_strlit("color");
    reveal_strlit("shape");
    reveal_strlit("kind");
    assert("x"@[0] == 'x' && "y"@[0] == 'y' && "w"@[0] == 'w' && "h"@[0] == 'h');
    assert("text"@[0] == 't' && "kind"@[0] == 'k' && "color"@[0] == 'c' && "shape"@[0] == 's');
    assert("x"@.len() == 1 && "y"@.len() == 1 && "w"@.len() == 1 && "h"@.len() == 1);
    assert("text"@.len() == 4 && "kind"@.len() == 4 && "color"@.len() == 5);
    assert("shape"@.len() == 5 && "subpath"@.len() == 7);
    let m = node_entry(f);
    assert(m["x"@] == ValueView::Int(f.x));
    assert(m["y"@] == ValueView::Int(f.y));
    assert(m["w"@] == ValueView::Int(f.w));
    assert(m["h"@] == ValueView::Int(f.h));
    assert(m["text"@] == ValueView::Text(f.text));
    assert(m["subpath"@] == opt_text(f.subpath));
    assert(m["color"@] == opt_text(f.color));
    assert(m["shape"@] == ValueView::Text(f.shape));
    assert(m["kind"@] == ValueView::Text(f.kind));
}

/// A connector that is written reads back as it was.
pub proof fn lemma_edge_reads_back(f: EdgeFieldsView)
    ensures
        edge_of_entry(edge_entry(f)) == f,
{
    reveal_strlit("from");
    reveal_strlit("to");
    reveal_strlit("from_side");
    reveal_strlit("to_side");
    reveal_strlit("from_end");
    reveal_strlit("to_end");
    reveal_strlit("from_row");
    reveal_strlit("from_col");
    reveal_strlit("to_row");
    reveal_strlit("to_col");
    reveal_strlit("color");
    reveal_strlit("label");
    assert("from_end"@[5] == 'e' && "from_row"@[5] == 'r' && "from_col"@[5] == 'c');
    assert("to_end"@[3] == 'e' && "to_row"@[3] == 'r' && "to_col"@[3] == 'c');
    assert("color"@[0] == 'c' && "label"@[0] == 'l');
    assert("from"@.len() == 4 && "to"@.len() == 2 && "from_side"@.len() == 9);
    assert("to_side"@.len() == 7 && "from_end"@.len() == 8 && "to_end"@.len() == 6);
    assert("from_row"@.len() == 8 && "from_col"@.len() == 8 && "to_row"@.len() == 6);
    assert("to_col"@.len() == 6 && "color"@.len() == 5 && "label"@.len() == 5);
    let m = edge_entry(f);
    assert(m["from"@] == ValueView::Text(f.from));
    assert(m["to"@] == ValueView::Text(f.to));
    assert(m["from_side"@] == opt_text(f.from_side));
    assert(m["to_side"@] == opt_text(f.to_side));
    assert(m["from_end"@] == ValueView::Text(f.from_end));
    assert(m["to_end"@] == ValueView::Text(f.to_end));
    assert(m["from_row"@] == opt_int(f.from_row));
    assert(m["from_col"@] == opt_int(f.from_col));
    assert(m["to_row"@] == opt_int(f.to_row));
    assert(m["to_col"@] == opt_int(f.to_col));
    assert(m["color"@] == opt_text(f.color));
    assert(m["label"@] == opt_text(f.label));
}

/// What was written last is what a snapshot gives, and the other entries
/// stay as they were.
pub proof fn lemma_snapshot_gives_what_was_written(
    before: Entries,
    id: Seq<char>,
    f: NodeFieldsView,
    list: Seq<(String, NodeFields)>,
)
    requires
        is_node_snapshot(list, before.insert(id, Some(node_entry(f)))),
    ensures
        exists|k: int| 0 <= k < list.len() && (#[trigger] list[k]).0@ == id && list[k].1@ == f,
        forall|k: int|
            0 <= k < list.len() && (#[trigger] list[k]).0@ != id ==> before.contains_key(
                list[k].0@,
            ) && before[list[k].0@] is Some && list[k].1@ == node_of_entry(
                before[list[k].0@]->0,
            ),
{
    lemma_node_reads_back(f);
    let after = before.insert(id, Some(node_entry(f)));
    assert(after.contains_key(id) && after[id] is Some);
    let k = choose|k: int| 0 <= k < list.len() && (#[trigger] list[k]).0@ == id;
    assert(list[k].0@ == id && list[k].1@ == f);
}

/// What was written last is what a snapshot gives of the connectors, and
/// the other entries stay as they were.
pub proof fn lemma_edge_snapshot_gives_what_was_written(
    before: Entries,
    id: Seq<char>,
    f: EdgeFieldsView,
    list: Seq<(String, EdgeFields)>,
)
    requires
        is_edge_snapshot(list, before.insert(id, Some(edge_entry(f)))),
    ensures
        exists|k: int| 0 <= k < list.len() && (#[trigger] list[k]).0@ == id && list[k].1@ == f,
        forall|k: int|
            0 <= k < list.len() && (#[trigger] list[k]).0@ != id ==> before.contains_key(
                list[k].0@,
            ) && before[list[k].0@] is Some && list[k].1@ == edge_of_entry(
                before[list[k].0@]->0,
            ),
{
    lemma_edge_reads_back(f);
    let after = before.insert(id, Some(edge_entry(f)));
    assert(after.contains_key(id) && after[id] is Some);
    let k = choose|k: int| 0 <= k < list.len() && (#[trigger] list[k]).0@ == id;
    assert(list[k].0@ == id && list[k].1@ == f);
}

} // verus!
