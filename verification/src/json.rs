//! JSON values, as the model adapters read and write them.
//!
//! `serde_json` holds, parses and prints them. What a value holds is named by
//! [`tree`], and the functions below say what each operation of the crate does
//! to it.
use vstd::prelude::*;
use vstd::utf8::*;

use serde_json::Value as Json;

verus! {

/// `serde_json::Value`, the outside type behind `Json`.
#[verifier::external_type_specification]
#[verifier::external_body]
pub struct ExJson(Json);

/// `serde_json::Map`, the members of an object.
#[verifier::external_type_specification]
#[verifier::external_body]
#[verifier::reject_recursive_types(K)]
#[verifier::reject_recursive_types(V)]
pub struct ExMembers<K, V>(serde_json::Map<K, V>);

/// What a JSON value holds. An integer is one of `serde_json`'s two integer
/// kinds; any other number is given by its bits.
pub enum JsonView {
    Null,
    Bool(bool),
    UInt(u64),
    NegInt(i64),
    Float(u64),
    Str(Seq<char>),
    Arr(Seq<JsonView>),
    Obj(Map<Seq<char>, JsonView>),
}

/// What a `serde_json::Value` holds.
pub uninterp spec fn tree(v: Json) -> JsonView;

/// What a `serde_json::Map` holds.
pub uninterp spec fn held(m: serde_json::Map<String, Json>) -> Map<Seq<char>, JsonView>;

/// What `serde_json::from_slice` makes of bytes: the value, or the text of the
/// error.
pub uninterp spec fn parsed(bytes: Seq<u8>) -> Result<JsonView, Seq<char>>;

/// How `serde_json` prints a value, compactly.
pub uninterp spec fn printed(t: JsonView) -> Seq<char>;

/// Do the bytes parse to a value that holds `t`?
pub open spec fn parses_to(bytes: Seq<u8>, t: JsonView) -> bool {
    parsed(bytes) == Ok::<JsonView, Seq<char>>(t)
}

/// What the values of a list hold.
pub open spec fn trees(list: Seq<Json>) -> Seq<JsonView> {
    list.map_values(|v: Json| tree(v))
}

impl JsonView {
    /// The member `key` of an object; `Null` if there is none.
    pub open spec fn at(self, key: Seq<char>) -> JsonView {
        match self {
            JsonView::Obj(m) => if m.dom().contains(key) {
                m[key]
            } else {
                JsonView::Null
            },
            _ => JsonView::Null,
        }
    }

    /// Is this an object with a member `key`?
    pub open spec fn has(self, key: Seq<char>) -> bool {
        self matches JsonView::Obj(m) && m.dom().contains(key)
    }

    /// The text of a string.
    pub open spec fn text(self) -> Option<Seq<char>> {
        match self {
            JsonView::Str(s) => Some(s),
            _ => None,
        }
    }

    /// The items of an array.
    pub open spec fn items(self) -> Option<Seq<JsonView>> {
        match self {
            JsonView::Arr(s) => Some(s),
            _ => None,
        }
    }

    /// Is the value free of non-integer numbers and nested at most `depth`
    /// deep?
    pub open spec fn is_exact(self, depth: nat) -> bool
        decreases depth,
    {
        match self {
            JsonView::Float(_) => false,
            JsonView::Arr(s) => depth > 0 && forall|i: int|
                0 <= i < s.len() ==> (#[trigger] s[i]).is_exact((depth - 1) as nat),
            JsonView::Obj(m) => depth > 0 && forall|k: Seq<char>| #[trigger]
                m.dom().contains(k) ==> m[k].is_exact((depth - 1) as nat),
            _ => true,
        }
    }
}

/// The members of an object: of two with the same key, the later one counts.
pub open spec fn members(pairs: Seq<(Seq<char>, JsonView)>) -> Map<Seq<char>, JsonView>
    decreases pairs.len(),
{
    if pairs.len() == 0 {
        Map::empty()
    } else {
        members(pairs.drop_last()).insert(pairs.last().0, pairs.last().1)
    }
}

/// What the pairs of a list hold.
pub open spec fn pair_trees(list: Seq<(String, Json)>) -> Seq<(Seq<char>, JsonView)> {
    list.map_values(|p: (String, Json)| (p.0@, tree(p.1)))
}

/// `serde_json::from_slice` into a `Value`, under the name `parsed`; an error
/// is given by its text.
#[verifier::external_body]
pub(crate) fn parse(bytes: &[u8]) -> (r: Result<Json, String>)
    ensures
        match r {
            Ok(v) => parsed(bytes@) == Ok::<JsonView, Seq<char>>(tree(v)),
            Err(e) => parsed(bytes@) == Err::<JsonView, Seq<char>>(e@),
        },
{
    serde_json::from_slice(bytes).map_err(|e: serde_json::Error| e.to_string())
}

/// `serde_json::Value`'s `to_string`, under the name `printed`. What is printed
/// parses back to the same value, if it holds no non-integer number (whose
/// digits may be read back as a neighbouring one) and is nested within the
/// parser's limit of 127.
#[verifier::external_body]
pub(crate) fn print(v: &Json) -> (r: String)
    ensures
        r@ == printed(tree(*v)),
        tree(*v).is_exact(127) ==> parses_to(encode_utf8(r@), tree(*v)),
{
    v.to_string()
}

/// `serde_json::Value::get` with a string: the member of an object.
#[verifier::external_body]
pub(crate) fn get<'a>(v: &'a Json, key: &str) -> (r: Option<&'a Json>)
    ensures
        match r {
            Some(w) => tree(*v).has(key@) && tree(*w) == tree(*v).at(key@),
            None => !tree(*v).has(key@),
        },
{
    v.get(key)
}

/// `serde_json::Value::as_array`: the items of an array.
#[verifier::external_body]
pub(crate) fn as_array(v: &Json) -> (r: Option<&Vec<Json>>)
    ensures
        match r {
            Some(list) => tree(*v).items() == Some(trees(list@)),
            None => tree(*v).items() is None,
        },
{
    v.as_array()
}

/// `serde_json::Value::as_str`: the text of a string.
#[verifier::external_body]
pub(crate) fn as_str(v: &Json) -> (r: Option<&str>)
    ensures
        match r {
            Some(s) => tree(*v).text() == Some(s@),
            None => tree(*v).text() is None,
        },
{
    v.as_str()
}

/// `serde_json::Value`'s `clone`: the same value.
#[verifier::external_body]
pub(crate) fn copy(v: &Json) -> (r: Json)
    ensures
        tree(r) == tree(*v),
{
    v.clone()
}

/// `serde_json::Value::Null`.
#[verifier::external_body]
pub(crate) fn null() -> (r: Json)
    ensures
        tree(r) == JsonView::Null,
{
    Json::Null
}

/// `serde_json::Value`'s `From<&str>`: a string.
#[verifier::external_body]
pub(crate) fn string(s: &str) -> (r: Json)
    ensures
        tree(r) == JsonView::Str(s@),
{
    Json::from(s)
}

/// `serde_json::Value`'s `From<u32>`: a number.
#[verifier::external_body]
pub(crate) fn number(n: u32) -> (r: Json)
    ensures
        tree(r) == JsonView::UInt(n as u64),
{
    Json::from(n)
}

/// `serde_json::Value::Array`: an array of the given items.
#[verifier::external_body]
pub(crate) fn array(items: Vec<Json>) -> (r: Json)
    ensures
        tree(r) == JsonView::Arr(trees(items@)),
{
    Json::Array(items)
}

/// `serde_json::Map::new`: no members.
#[verifier::external_body]
fn no_members() -> (r: serde_json::Map<String, Json>)
    ensures
        held(r) == members(Seq::empty()),
{
    serde_json::Map::new()
}

/// `serde_json::Map::insert`: sets the member `key`. What the member was is
/// dropped.
#[verifier::external_body]
fn set_member(m: &mut serde_json::Map<String, Json>, key: String, v: Json)
    ensures
        held(*final(m)) == held(*old(m)).insert(key@, tree(v)),
{
    m.insert(key, v);
}

/// `serde_json::Value::Object`: an object of the given members.
#[verifier::external_body]
fn object_of(m: serde_json::Map<String, Json>) -> (r: Json)
    ensures
        tree(r) == JsonView::Obj(held(m)),
{
    Json::Object(m)
}

/// An object of the given members.
pub(crate) fn object(pairs: Vec<(String, Json)>) -> (r: Json)
    ensures
        tree(r) == JsonView::Obj(members(pair_trees(pairs@))),
{
    let mut m = no_members();
    let mut i: usize = 0;
    while i < pairs.len()
        invariant
            i <= pairs@.len(),
            held(m) == members(pair_trees(pairs@).take(i as int)),
        decreases pairs@.len() - i,
    {
        let ghost all = pair_trees(pairs@);
        set_member(&mut m, pairs[i].0.clone(), copy(&pairs[i].1));
        assert(all.take(i + 1).drop_last() =~= all.take(i as int));
        i += 1;
    }
    assert(pair_trees(pairs@).take(i as int) =~= pair_trees(pairs@));
    object_of(m)
}

/// The text of the member `key`, if it is a string.
pub fn text_at<'a>(v: &'a Json, key: &str) -> (r: Option<&'a str>)
    ensures
        match r {
            Some(s) => tree(*v).at(key@).text() == Some(s@),
            None => tree(*v).at(key@).text() is None,
        },
{
    match get(v, key) {
        None => None,
        Some(w) => as_str(w),
    }
}

/// Is the member `key` the string `s`?
pub fn is_text_at(v: &Json, key: &str, s: &str) -> (r: bool)
    ensures
        r == (tree(*v).at(key@).text() == Some(s@)),
{
    match text_at(v, key) {
        None => false,
        Some(t) => crate::text::same_text(t, s),
    }
}

/// The items of the member `key`, if it is an array.
pub fn items_at<'a>(v: &'a Json, key: &str) -> (r: Option<&'a Vec<Json>>)
    ensures
        match r {
            Some(list) => tree(*v).at(key@).items() == Some(trees(list@)),
            None => tree(*v).at(key@).items() is None,
        },
{
    match get(v, key) {
        None => None,
        Some(w) => as_array(w),
    }
}

/// Copies of all values of a list.
pub fn copy_all(list: &Vec<Json>) -> (r: Vec<Json>)
    ensures
        trees(r@) == trees(list@),
{
    let mut out: Vec<Json> = Vec::new();
    let mut i: usize = 0;
    while i < list.len()
        invariant
            i <= list@.len(),
            trees(out@) == trees(list@).take(i as int),
        decreases list@.len() - i,
    {
        let ghost before = trees(out@);
        out.push(copy(&list[i]));
        assert(trees(out@) =~= before.push(tree(list@[i as int])));
        assert(trees(list@).take(i + 1) =~= trees(list@).take(i as int).push(
            tree(list@[i as int]),
        ));
        i += 1;
    }
    assert(trees(out@) =~= trees(list@));
    out
}

} // verus!
