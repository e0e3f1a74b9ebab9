//! JSON values, and the reading and writing of them.
use vstd::prelude::*;

use serde_json::Value;

use crate::text::less;
use crate::text::same;
use crate::text::views;

verus! {

/// A JSON value. Whole numbers are told apart by sign; any other number is kept as it is
/// written. The names of an object's members are distinct where it was read from a text.
#[derive(Debug, PartialEq)]
pub enum Json {
    Null,
    Bool(bool),
    Pos(u64),
    Neg(i64),
    Real(String),
    Str(String),
    Arr(Vec<Json>),
    Obj(Vec<(String, Json)>),
}

/// What a JSON value is.
pub enum Tree {
    Null,
    Bool(bool),
    Pos(u64),
    Neg(i64),
    Real(Seq<char>),
    Str(Seq<char>),
    Arr(Seq<Tree>),
    Obj(Seq<(Seq<char>, Tree)>),
}

/// What a JSON value is.
pub open spec fn tree_of(j: Json) -> Tree
    decreases j,
{
    match j {
        Json::Null => Tree::Null,
        Json::Bool(b) => Tree::Bool(b),
        Json::Pos(n) => Tree::Pos(n),
        Json::Neg(n) => Tree::Neg(n),
        Json::Real(t) => Tree::Real(t@),
        Json::Str(t) => Tree::Str(t@),
        Json::Arr(v) => Tree::Arr(
            Seq::new(
                v@.len(),
                |i: int|
                    if 0 <= i < v@.len() {
                        tree_of(v@[i])
                    } else {
                        Tree::Null
                    },
            ),
        ),
        Json::Obj(v) => Tree::Obj(
            Seq::new(
                v@.len(),
                |i: int|
                    if 0 <= i < v@.len() {
                        (v@[i].0@, tree_of(v@[i].1))
                    } else {
                        (Seq::empty(), Tree::Null)
                    },
            ),
        ),
    }
}

impl View for Json {
    type V = Tree;

    open spec fn view(&self) -> Tree {
        tree_of(*self)
    }
}

/// The values of a list.
pub open spec fn trees(v: Seq<Json>) -> Seq<Tree> {
    Seq::new(v.len(), |i: int| v[i]@)
}

/// The members of an object.
pub open spec fn members(v: Seq<(String, Json)>) -> Seq<(Seq<char>, Tree)> {
    Seq::new(v.len(), |i: int| (v[i].0@, v[i].1@))
}

proof fn lemma_arr(v: Vec<Json>)
    ensures
        Json::Arr(v)@ == Tree::Arr(trees(v@)),
{
    assert(Json::Arr(v)@->Arr_0 =~= trees(v@));
}

proof fn lemma_obj(v: Vec<(String, Json)>)
    ensures
        Json::Obj(v)@ == Tree::Obj(members(v@)),
{
    assert(Json::Obj(v)@->Obj_0 =~= members(v@));
}

/// Position of the first member named `key`, or the number of members.
pub open spec fn member_from(m: Seq<(Seq<char>, Tree)>, key: Seq<char>, k: int) -> int
    decreases m.len() - k,
{
    if k >= m.len() {
        m.len() as int
    } else if m[k].0 == key {
        k
    } else {
        member_from(m, key, k + 1)
    }
}

impl Tree {
    /// The member named `key`, if this is an object that has it.
    pub open spec fn get(self, key: Seq<char>) -> Option<Tree> {
        match self {
            Tree::Obj(m) => {
                let k = member_from(m, key, 0);
                if k < m.len() {
                    Some(m[k].1)
                } else {
                    None
                }
            },
            _ => None,
        }
    }

    /// The text, if this is one.
    pub open spec fn as_str(self) -> Option<Seq<char>> {
        match self {
            Tree::Str(t) => Some(t),
            _ => None,
        }
    }

    /// The truth value, if this is one.
    pub open spec fn as_bool(self) -> Option<bool> {
        match self {
            Tree::Bool(b) => Some(b),
            _ => None,
        }
    }

    /// The whole number that is not negative, if this is one.
    pub open spec fn as_u64(self) -> Option<u64> {
        match self {
            Tree::Pos(n) => Some(n),
            _ => None,
        }
    }

    /// The whole number, if this is one that fits.
    pub open spec fn as_i64(self) -> Option<i64> {
        match self {
            Tree::Pos(n) => if n <= i64::MAX {
                Some(n as i64)
            } else {
                None
            },
            Tree::Neg(n) => Some(n),
            _ => None,
        }
    }

    /// The values, if this is a list.
    pub open spec fn as_list(self) -> Option<Seq<Tree>> {
        match self {
            Tree::Arr(v) => Some(v),
            _ => None,
        }
    }

    /// The text of the member named `key`, if there is one.
    pub open spec fn str_at(self, key: Seq<char>) -> Option<Seq<char>> {
        match self.get(key) {
            Some(v) => v.as_str(),
            None => None,
        }
    }

    /// The whole number of the member named `key`, if there is one.
    pub open spec fn i64_at(self, key: Seq<char>) -> Option<i64> {
        match self.get(key) {
            Some(v) => v.as_i64(),
            None => None,
        }
    }

    /// The whole number that is not negative of the member named `key`, if there is one.
    pub open spec fn u64_at(self, key: Seq<char>) -> Option<u64> {
        match self.get(key) {
            Some(v) => v.as_u64(),
            None => None,
        }
    }

    /// The truth value of the member named `key`, if there is one.
    pub open spec fn bool_at(self, key: Seq<char>) -> Option<bool> {
        match self.get(key) {
            Some(v) => v.as_bool(),
            None => None,
        }
    }

    /// The list of the member named `key`, if there is one.
    pub open spec fn list_at(self, key: Seq<char>) -> Option<Seq<Tree>> {
        match self.get(key) {
            Some(v) => v.as_list(),
            None => None,
        }
    }

    /// The whole number `n`.
    pub open spec fn whole(n: i64) -> Tree {
        if n >= 0 {
            Tree::Pos(n as u64)
        } else {
            Tree::Neg(n)
        }
    }
}

/// The text of an optional string.
pub open spec fn opt_text(o: Option<&str>) -> Option<Seq<char>> {
    match o {
        Some(s) => Some(s@),
        None => None,
    }
}

impl Json {
    /// The member named `key`, if this is an object that has it.
    pub fn get(&self, key: &str) -> (r: Option<&Json>)
        ensures
            match r {
                Some(v) => self@.get(key@) == Some(v@),
                None => self@.get(key@) is None,
            },
    {
        match self {
            Json::Obj(v) => {
                proof {
                    lemma_obj(*v);
                }
                let mut k: usize = 0;
                while k < v.len()
                    invariant
                        k <= v@.len(),
                        self@ == Tree::Obj(members(v@)),
                        member_from(members(v@), key@, k as int) == member_from(
                            members(v@),
                            key@,
                            0,
                        ),
                    decreases v.len() - k,
                {
                    if same(v[k].0.as_str(), key) {
                        assert(members(v@)[k as int].0 == key@);
                        return Some(&v[k].1);
                    }
                    assert(members(v@)[k as int].0 != key@);
                    k = k + 1;
                }
                None
            },
            _ => None,
        }
    }

    /// The text, if this is one.
    pub fn as_str(&self) -> (r: Option<&str>)
        ensures
            opt_text(r) == self@.as_str(),
    {
        match self {
            Json::Str(s) => Some(s.as_str()),
            _ => None,
        }
    }

    /// The truth value, if this is one.
    pub fn as_bool(&self) -> (r: Option<bool>)
        ensures
            r == self@.as_bool(),
    {
        match self {
            Json::Bool(b) => Some(*b),
            _ => None,
        }
    }

    /// The whole number that is not negative, if this is one.
    pub fn as_u64(&self) -> (r: Option<u64>)
        ensures
            r == self@.as_u64(),
    {
        match self {
            Json::Pos(n) => Some(*n),
            _ => None,
        }
    }

    /// The whole number, if this is one that fits.
    pub fn as_i64(&self) -> (r: Option<i64>)
        ensures
            r == self@.as_i64(),
    {
        match self {
            Json::Pos(n) => if *n <= i64::MAX as u64 {
                Some(*n as i64)
            } else {
                None
            },
            Json::Neg(n) => Some(*n),
            _ => None,
        }
    }

    /// The values, if this is a list.
    pub fn as_list(&self) -> (r: Option<&Vec<Json>>)
        ensures
            match r {
                Some(v) => self@.as_list() == Some(trees(v@)),
                None => self@.as_list() is None,
            },
    {
        match self {
            Json::Arr(v) => {
                proof {
                    lemma_arr(*v);
                }
                Some(v)
            },
            _ => None,
        }
    }

    /// The text of the member named `key`, if there is one.
    pub fn str_at(&self, key: &str) -> (r: Option<&str>)
        ensures
            opt_text(r) == self@.str_at(key@),
    {
        match self.get(key) {
            Some(v) => v.as_str(),
            None => None,
        }
    }

    /// The whole number of the member named `key`, if there is one.
    pub fn i64_at(&self, key: &str) -> (r: Option<i64>)
        ensures
            r == self@.i64_at(key@),
    {
        match self.get(key) {
            Some(v) => v.as_i64(),
            None => None,
        }
    }

    /// The whole number that is not negative of the member named `key`, if there is one.
    pub fn u64_at(&self, key: &str) -> (r: Option<u64>)
        ensures
            r == self@.u64_at(key@),
    {
        match self.get(key) {
            Some(v) => v.as_u64(),
            None => None,
        }
    }

    /// The truth value of the member named `key`, if there is one.
    pub fn bool_at(&self, key: &str) -> (r: Option<bool>)
        ensures
            r == self@.bool_at(key@),
    {
        match self.get(key) {
            Some(v) => v.as_bool(),
            None => None,
        }
    }

    /// The list of the member named `key`, if there is one.
    pub fn list_at(&self, key: &str) -> (r: Option<&Vec<Json>>)
        ensures
            match r {
                Some(v) => self@.list_at(key@) == Some(trees(v@)),
                None => self@.list_at(key@) is None,
            },
    {
        match self.get(key) {
            Some(v) => v.as_list(),
            None => None,
        }
    }

    /// A text.
    pub fn text(s: &str) -> (r: Json)
        ensures
            r@ == Tree::Str(s@),
    {
        Json::Str(s.to_owned())
    }

    /// A whole number.
    pub fn whole(n: i64) -> (r: Json)
        ensures
            r@ == Tree::whole(n),
    {
        if n >= 0 {
            Json::Pos(n as u64)
        } else {
            Json::Neg(n)
        }
    }

    /// A list.
    pub fn list(v: Vec<Json>) -> (r: Json)
        ensures
            r@ == Tree::Arr(trees(v@)),
    {
        proof {
            lemma_arr(v);
        }
        Json::Arr(v)
    }

    /// An object.
    pub fn object(v: Vec<(String, Json)>) -> (r: Json)
        ensures
            r@ == Tree::Obj(members(v@)),
    {
        proof {
            lemma_obj(v);
        }
        Json::Obj(v)
    }

    /// A copy.
    pub fn copy(&self) -> (r: Json)
        ensures
            r@ == self@,
        decreases self,
    {
        match self {
            Json::Null => Json::Null,
            Json::Bool(b) => Json::Bool(*b),
            Json::Pos(n) => Json::Pos(*n),
            Json::Neg(n) => Json::Neg(*n),
            Json::Real(t) => Json::Real(t.clone()),
            Json::Str(t) => Json::Str(t.clone()),
            Json::Arr(v) => {
                let mut out: Vec<Json> = Vec::new();
                let mut k: usize = 0;
                while k < v.len()
                    invariant
                        k <= v@.len(),
                        self == Json::Arr(*v),
                        trees(out@) == trees(v@).take(k as int),
                    decreases v.len() - k,
                {
                    let ghost before = trees(out@);
                    assert(decreases_to!(*self => (*self)->Arr_0));
                    assert(decreases_to!(v@ => v@[k as int]));
                    let one = v[k].copy();
                    out.push(one);
                    assert(trees(out@) =~= before.push(trees(v@)[k as int]));
                    k = k + 1;
                }
                assert(trees(v@).take(k as int) =~= trees(v@));
                proof {
                    lemma_arr(*v);
                }
                Json::list(out)
            },
            Json::Obj(v) => {
                let mut out: Vec<(String, Json)> = Vec::new();
                let mut k: usize = 0;
                while k < v.len()
                    invariant
                        k <= v@.len(),
                        self == Json::Obj(*v),
                        members(out@) == members(v@).take(k as int),
                    decreases v.len() - k,
                {
                    let ghost before = members(out@);
                    assert(decreases_to!(*self => (*self)->Obj_0));
                    assert(decreases_to!(v@ => v@[k as int]));
                    assert(decreases_to!(v@[k as int] => v@[k as int].1));
                    let one = v[k].1.copy();
                    out.push((v[k].0.clone(), one));
                    assert(members(out@) =~= before.push(members(v@)[k as int]));
                    k = k + 1;
                }
                assert(members(v@).take(k as int) =~= members(v@));
                proof {
                    lemma_obj(*v);
                }
                Json::object(out)
            },
        }
    }
}

/// The member named `key` of a value, where there is one.
pub open spec fn under(o: Option<Tree>, key: Seq<char>) -> Option<Tree> {
    match o {
        Some(t) => t.get(key),
        None => None,
    }
}

/// A text, or `other` where there is none.
pub open spec fn text_or(o: Option<Tree>, other: Seq<char>) -> Seq<char> {
    match o {
        Some(Tree::Str(t)) => t,
        _ => other,
    }
}

/// A whole number, or `other` where there is none that fits.
pub open spec fn whole_or(o: Option<Tree>, other: i64) -> i64 {
    match o {
        Some(t) => match t.as_i64() {
            Some(n) => n,
            None => other,
        },
        None => other,
    }
}

/// The values of a list; none where there is no list.
pub open spec fn list_or_none(o: Option<Tree>) -> Seq<Tree> {
    match o {
        Some(Tree::Arr(v)) => v,
        _ => Seq::empty(),
    }
}

/// The value behind an optional reference.
pub open spec fn opt_tree(o: Option<&Json>) -> Option<Tree> {
    match o {
        Some(j) => Some(j@),
        None => None,
    }
}

/// The member named `key` of a value, where there is one.
pub fn under_key<'a>(o: Option<&'a Json>, key: &str) -> (r: Option<&'a Json>)
    ensures
        opt_tree(r) == under(opt_tree(o), key@),
{
    match o {
        Some(j) => j.get(key),
        None => None,
    }
}

/// A text, or `other` where there is none.
pub fn get_text_or(o: Option<&Json>, other: &str) -> (r: String)
    ensures
        r@ == text_or(opt_tree(o), other@),
{
    match o {
        Some(Json::Str(s)) => s.clone(),
        _ => other.to_owned(),
    }
}

/// A whole number, or `other` where there is none that fits.
pub fn get_whole_or(o: Option<&Json>, other: i64) -> (r: i64)
    ensures
        r == whole_or(opt_tree(o), other),
{
    match o {
        Some(j) => match j.as_i64() {
            Some(n) => n,
            None => other,
        },
        None => other,
    }
}

/// The values of a list, where there is one.
pub fn get_list<'a>(o: Option<&'a Json>) -> (r: Option<&'a Vec<Json>>)
    ensures
        match r {
            Some(v) => list_or_none(opt_tree(o)) == trees(v@),
            None => list_or_none(opt_tree(o)) == Seq::<Tree>::empty(),
        },
{
    match o {
        Some(Json::Arr(v)) => {
            proof {
                lemma_arr(*v);
            }
            Some(v)
        },
        _ => None,
    }
}

/// The texts among the values of a list.
pub open spec fn texts_in(v: Seq<Tree>) -> Seq<Seq<char>>
    decreases v.len(),
{
    if v.len() == 0 {
        Seq::empty()
    } else {
        let before = texts_in(v.drop_last());
        match v.last() {
            Tree::Str(t) => before.push(t),
            _ => before,
        }
    }
}

/// The texts among the values of a list.
pub fn get_texts(v: &Vec<Json>) -> (r: Vec<String>)
    ensures
        views(r@) == texts_in(trees(v@)),
{
    let ghost tv = trees(v@);
    let mut out: Vec<String> = Vec::new();
    assert(views(out@) =~= Seq::<Seq<char>>::empty());
    let mut k: usize = 0;
    while k < v.len()
        invariant
            k <= v@.len(),
            tv == trees(v@),
            views(out@) == texts_in(tv.take(k as int)),
        decreases v.len() - k,
    {
        assert(tv.take(k + 1).drop_last() =~= tv.take(k as int));
        assert(tv.take(k + 1).last() == v@[k as int]@);
        let ghost before = views(out@);
        if let Json::Str(s) = &v[k] {
            out.push(s.clone());
            assert(views(out@) =~= before.push(s@));
        }
        k = k + 1;
    }
    assert(tv.take(k as int) =~= tv);
    out
}

/// The whole numbers that the values of a list have under `key`.
pub open spec fn wholes_in(v: Seq<Tree>, key: Seq<char>) -> Seq<i64>
    decreases v.len(),
{
    if v.len() == 0 {
        Seq::empty()
    } else {
        let before = wholes_in(v.drop_last(), key);
        match v.last().i64_at(key) {
            Some(n) => before.push(n),
            None => before,
        }
    }
}

/// The whole numbers that the values of a list have under `key`.
pub fn get_wholes(v: &Vec<Json>, key: &str) -> (r: Vec<i64>)
    ensures
        r@ == wholes_in(trees(v@), key@),
{
    let ghost tv = trees(v@);
    let mut out: Vec<i64> = Vec::new();
    let mut k: usize = 0;
    while k < v.len()
        invariant
            k <= v@.len(),
            tv == trees(v@),
            out@ == wholes_in(tv.take(k as int), key@),
        decreases v.len() - k,
    {
        assert(tv.take(k + 1).drop_last() =~= tv.take(k as int));
        assert(tv.take(k + 1).last() == v@[k as int]@);
        if let Some(n) = v[k].i64_at(key) {
            out.push(n);
        }
        k = k + 1;
    }
    assert(tv.take(k as int) =~= tv);
    out
}

/// An object under construction.
pub struct ObjectBuilder {
    fields: Vec<(String, Json)>,
}

impl View for ObjectBuilder {
    type V = Seq<(Seq<char>, Tree)>;

    closed spec fn view(&self) -> Seq<(Seq<char>, Tree)> {
        members(self.fields@)
    }
}

impl ObjectBuilder {
    /// An object without members.
    pub fn new() -> (r: ObjectBuilder)
        ensures
            r@ == Seq::<(Seq<char>, Tree)>::empty(),
    {
        let r = ObjectBuilder { fields: Vec::new() };
        assert(r@ =~= Seq::<(Seq<char>, Tree)>::empty());
        r
    }

    /// Adds a member.
    pub fn put(&mut self, key: &str, value: Json)
        ensures
            final(self)@ == old(self)@.push((key@, value@)),
    {
        let ghost before = self@;
        self.fields.push((key.to_owned(), value));
        assert(self@ =~= before.push((key@, value@)));
    }

    /// Adds a text member.
    pub fn put_str(&mut self, key: &str, value: &str)
        ensures
            final(self)@ == old(self)@.push((key@, Tree::Str(value@))),
    {
        self.put(key, Json::text(value));
    }

    /// The object.
    pub fn build(self) -> (r: Json)
        ensures
            r@ == Tree::Obj(self@),
    {
        Json::object(self.fields)
    }
}

/// `serde_json::Value`: a JSON document.
#[verifier::external_type_specification]
#[verifier::external_body]
pub struct ExValue(Value);

/// What a document of serde_json holds, members in the order of its map.
pub uninterp spec fn document(v: Value) -> Tree;

/// The document that a text is, if it is JSON.
pub uninterp spec fn read(text: Seq<char>) -> Option<Tree>;

/// `serde_json::from_str` into a `Value`: the document rests on the text alone. The reader
/// refuses a text with more than `MAX_DEPTH` lists and objects inside one another.
#[verifier::external_body]
fn parse_value(text: &str) -> (r: Option<Value>)
    ensures
        match r {
            Some(v) => read(text@) == Some(document(v)) && shallow(document(v), MAX_DEPTH as int),
            None => read(text@) is None,
        },
{
    serde_json::from_str::<Value>(text).ok()
}

/// What serde_json says is wrong with a text that is not JSON.
pub uninterp spec fn problem(text: Seq<char>) -> Option<Seq<char>>;

/// The error of `serde_json::from_str` into a `Value`, as text, which rests on the text alone.
/// There is one where the text is not JSON.
#[verifier::external_body]
pub(crate) fn parse_problem(text: &str) -> (r: Option<String>)
    ensures
        crate::text::opt_view(r) == problem(text@),
        r is None == read(text@) is Some,
{
    serde_json::from_str::<Value>(text).err().map(|e| e.to_string())
}

/// What stands at the root of a document. Lists give their length, objects the names of
/// their members.
enum Root {
    Null,
    Bool(bool),
    Pos(u64),
    Neg(i64),
    Real(String),
    Str(String),
    Arr(usize),
    Obj(Vec<String>),
}

/// The names of the members of an object.
pub open spec fn names(m: Seq<(Seq<char>, Tree)>) -> Seq<Seq<char>> {
    Seq::new(m.len(), |i: int| m[i].0)
}

spec fn is_root(r: Root, t: Tree) -> bool {
    match r {
        Root::Null => t == Tree::Null,
        Root::Bool(b) => t == Tree::Bool(b),
        Root::Pos(n) => t == Tree::Pos(n),
        Root::Neg(n) => t == Tree::Neg(n) && n < 0,
        Root::Real(s) => t == Tree::Real(s@) && number_of(s@) == t,
        Root::Str(s) => t == Tree::Str(s@),
        Root::Arr(n) => t is Arr && t->Arr_0.len() == n,
        Root::Obj(v) => {
            &&& t is Obj
            &&& names(t->Obj_0) == views(v@)
            &&& forall|a: int, b: int|
                0 <= a < b < t->Obj_0.len() ==> #[trigger] t->Obj_0[a].0 != #[trigger] t->Obj_0[b].0
        },
    }
}

/// Tells the variants of `Value` apart; a number is told by `Number::as_u64` and
/// `Number::as_i64`, of which the second alone gives a negative one, and any other number is
/// written out, as what is read again as that number. The names of an object's members are
/// distinct.
#[verifier::external_body]
fn root(v: &Value) -> (r: Root)
    ensures
        is_root(r, document(*v)),
{
    match v {
        Value::Null => Root::Null,
        Value::Bool(b) => Root::Bool(*b),
        Value::Number(n) => match (n.as_u64(), n.as_i64()) {
            (Some(u), _) => Root::Pos(u),
            (None, Some(i)) => Root::Neg(i),
            (None, None) => Root::Real(n.to_string()),
        },
        Value::String(s) => Root::Str(s.clone()),
        Value::Array(a) => Root::Arr(a.len()),
        Value::Object(m) => Root::Obj(m.keys().cloned().collect()),
    }
}

/// Indexing a `Value` with a number: the item of a list.
#[verifier::external_body]
fn item(v: &Value, i: usize) -> (r: &Value)
    requires
        document(*v) is Arr,
        i < document(*v)->Arr_0.len(),
    ensures
        document(*r) == document(*v)->Arr_0[i as int],
{
    &v[i]
}

/// Indexing a `Value` with a name: the member of an object.
#[verifier::external_body]
fn member<'a>(v: &'a Value, key: &str) -> (r: &'a Value)
    requires
        document(*v).get(key@) is Some,
    ensures
        document(*v).get(key@) == Some(document(*r)),
{
    &v[key]
}

proof fn lemma_member_from(m: Seq<(Seq<char>, Tree)>, key: Seq<char>, k: int, i: int)
    requires
        0 <= k <= i < m.len(),
        m[i].0 == key,
        forall|a: int, b: int| 0 <= a < b < m.len() ==> #[trigger] m[a].0 != #[trigger] m[b].0,
    ensures
        member_from(m, key, k) == i,
    decreases i - k,
{
    if k < i {
        assert(m[k].0 != m[i].0);
        lemma_member_from(m, key, k + 1, i);
    }
}

fn convert(v: &Value) -> (r: Json)
    ensures
        r@ == document(*v),
        is_sound(document(*v)),
    decreases document(*v),
{
    let ghost t = document(*v);
    match root(v) {
        Root::Null => Json::Null,
        Root::Bool(b) => Json::Bool(b),
        Root::Pos(n) => Json::Pos(n),
        Root::Neg(n) => Json::Neg(n),
        Root::Real(s) => Json::Real(s),
        Root::Str(s) => Json::Str(s),
        Root::Arr(n) => {
            let ghost items = t->Arr_0;
            let mut out: Vec<Json> = Vec::new();
            let mut k: usize = 0;
            while k < n
                invariant
                    k <= n,
                    t == document(*v),
                    t == Tree::Arr(items),
                    items.len() == n,
                    trees(out@) == items.take(k as int),
                    forall|i: int| 0 <= i < k ==> is_sound(#[trigger] items[i]),
                decreases n - k,
            {
                let ghost before = trees(out@);
                let one = item(v, k);
                assert(decreases_to!(t => items));
                assert(decreases_to!(items => items[k as int]));
                let j = convert(one);
                out.push(j);
                assert(trees(out@) =~= before.push(items[k as int]));
                k = k + 1;
            }
            assert(items.take(k as int) =~= items);
            Json::list(out)
        },
        Root::Obj(keys) => {
            let ghost m = t->Obj_0;
            let mut out: Vec<(String, Json)> = Vec::new();
            let mut k: usize = 0;
            assert(views(keys@).len() == m.len());
            while k < keys.len()
                invariant
                    k <= keys@.len(),
                    t == document(*v),
                    t == Tree::Obj(m),
                    names(m) == views(keys@),
                    names(m).len() == keys@.len(),
                    forall|a: int, b: int|
                        0 <= a < b < m.len() ==> #[trigger] m[a].0 != #[trigger] m[b].0,
                    members(out@) == m.take(k as int),
                    forall|i: int| 0 <= i < k ==> is_sound((#[trigger] m[i]).1),
                decreases keys.len() - k,
            {
                let ghost before = members(out@);
                assert(names(m)[k as int] == views(keys@)[k as int]);
                proof {
                    lemma_member_from(m, keys@[k as int]@, 0, k as int);
                }
                let one = member(v, keys[k].as_str());
                assert(decreases_to!(t => m));
                assert(decreases_to!(m => m[k as int]));
                assert(decreases_to!(m[k as int] => m[k as int].1));
                let j = convert(one);
                out.push((keys[k].clone(), j));
                assert(members(out@) =~= before.push(m[k as int]));
                k = k + 1;
            }
            assert(m.take(k as int) =~= m);
            Json::object(out)
        },
    }
}

/// Reads a JSON document; none where the text is not one.
pub fn parse(text: &str) -> (r: Option<Json>)
    ensures
        match r {
            Some(j) => read(text@) == Some(j@) && plain(j@, MAX_DEPTH as int),
            None => read(text@) is None,
        },
{
    match parse_value(text) {
        Some(v) => {
            let j = convert(&v);
            proof {
                lemma_plain(j@, MAX_DEPTH as int);
            }
            Some(j)
        },
        None => None,
    }
}

/// The compact text of a document.
pub uninterp spec fn compact(t: Tree) -> Seq<char>;

/// The indented text of a document.
pub uninterp spec fn indented(t: Tree) -> Seq<char>;

/// The number that a text is, as a document; null where it is none.
pub uninterp spec fn number_of(text: Seq<char>) -> Tree;

/// The first member from the `k`-th on whose name does not come before `key`, or the number
/// of members.
pub open spec fn slot_from(m: Seq<(Seq<char>, Tree)>, key: Seq<char>, k: int) -> int
    decreases m.len() - k,
{
    if k >= m.len() {
        m.len() as int
    } else if less(m[k].0, key) {
        slot_from(m, key, k + 1)
    } else {
        k
    }
}

/// The members of a map, whose names ascend, after one more is put in. A name that is there
/// takes the new value.
pub open spec fn inserted(m: Seq<(Seq<char>, Tree)>, one: (Seq<char>, Tree)) -> Seq<
    (Seq<char>, Tree),
> {
    let k = slot_from(m, one.0, 0);
    if k < m.len() && m[k].0 == one.0 {
        m.update(k, one)
    } else {
        m.insert(k, one)
    }
}

/// The members of the map that takes in the members `m` in order.
pub open spec fn collected(m: Seq<(Seq<char>, Tree)>) -> Seq<(Seq<char>, Tree)>
    decreases m.len(),
{
    if m.len() == 0 {
        m
    } else {
        inserted(collected(m.drop_last()), m.last())
    }
}

/// A value as the document that is made of it: the names of each object distinct and
/// ascending, the last of equal names kept, and each number told by what it is.
pub open spec fn kept(t: Tree) -> Tree
    decreases t,
{
    match t {
        Tree::Neg(n) => Tree::whole(n),
        Tree::Real(s) => number_of(s),
        Tree::Arr(v) => Tree::Arr(kept_list(v)),
        Tree::Obj(m) => Tree::Obj(collected(kept_members(m))),
        _ => t,
    }
}

/// The values of a list, as documents.
pub open spec fn kept_list(v: Seq<Tree>) -> Seq<Tree>
    decreases v,
{
    Seq::new(
        v.len(),
        |i: int|
            if 0 <= i < v.len() {
                kept(v[i])
            } else {
                Tree::Null
            },
    )
}

/// The members of an object, each value as a document.
pub open spec fn kept_members(m: Seq<(Seq<char>, Tree)>) -> Seq<(Seq<char>, Tree)>
    decreases m,
{
    Seq::new(
        m.len(),
        |i: int|
            if 0 <= i < m.len() {
                (m[i].0, kept(m[i].1))
            } else {
                (Seq::empty(), Tree::Null)
            },
    )
}

/// The compact text of a value.
pub open spec fn printed(t: Tree) -> Seq<char> {
    compact(kept(t))
}

/// The indented text of a value.
pub open spec fn printed_pretty(t: Tree) -> Seq<char> {
    indented(kept(t))
}

proof fn lemma_slot(m: Seq<(Seq<char>, Tree)>, key: Seq<char>, k: int)
    requires
        0 <= k <= m.len(),
    ensures
        k <= slot_from(m, key, k) <= m.len(),
    decreases m.len() - k,
{
    if k < m.len() && less(m[k].0, key) {
        lemma_slot(m, key, k + 1);
    }
}

/// Whether no two members have one name.
pub open spec fn distinct(m: Seq<(Seq<char>, Tree)>) -> bool {
    forall|a: int, b: int| 0 <= a < b < m.len() ==> (#[trigger] m[a]).0 != (#[trigger] m[b]).0
}

/// A map holds the members that were put in, where their names are distinct.
proof fn lemma_collected(m: Seq<(Seq<char>, Tree)>)
    requires
        distinct(m),
    ensures
        collected(m).len() == m.len(),
        distinct(collected(m)),
        forall|i: int| 0 <= i < m.len() ==> collected(m).contains(#[trigger] m[i]),
        forall|j: int| 0 <= j < m.len() ==> m.contains(#[trigger] collected(m)[j]),
    decreases m.len(),
{
    if m.len() > 0 {
        let rest = m.drop_last();
        let one = m.last();
        let c = collected(rest);
        assert(distinct(rest)) by {
            assert forall|a: int, b: int| 0 <= a < b < rest.len() implies (#[trigger] rest[a]).0 != (
            #[trigger] rest[b]).0 by {
                assert(rest[a] == m[a] && rest[b] == m[b]);
            }
        }
        lemma_collected(rest);
        lemma_slot(c, one.0, 0);
        let k = slot_from(c, one.0, 0);
        assert forall|j: int| 0 <= j < c.len() implies (#[trigger] c[j]).0 != one.0 by {
            assert(rest.contains(c[j]));
            let i = choose|i: int| 0 <= i < rest.len() && rest[i] == c[j];
            assert(m[i] == rest[i]);
            assert(m[i].0 != m[m.len() - 1].0);
        }
        let d = collected(m);
        assert(d == c.insert(k, one));
        assert forall|j: int| 0 <= j < d.len() implies #[trigger] d[j] == (if j < k {
            c[j]
        } else if j == k {
            one
        } else {
            c[j - 1]
        }) by {}
        assert(distinct(d)) by {
            assert forall|a: int, b: int| 0 <= a < b < d.len() implies (#[trigger] d[a]).0 != (
            #[trigger] d[b]).0 by {
                let x = if a < k {
                    a
                } else {
                    a - 1
                };
                let y = if b < k {
                    b
                } else {
                    b - 1
                };
                if a != k && b != k {
                    assert(c[x].0 != c[y].0);
                } else if a == k {
                    assert(c[y].0 != one.0);
                } else {
                    assert(c[x].0 != one.0);
                }
            }
        }
        assert forall|i: int| 0 <= i < m.len() implies d.contains(#[trigger] m[i]) by {
            if i == m.len() - 1 {
                assert(d[k] == m[i]);
            } else {
                assert(rest[i] == m[i]);
                assert(c.contains(rest[i]));
                let j = choose|j: int| 0 <= j < c.len() && c[j] == rest[i];
                if j < k {
                    assert(d[j] == m[i]);
                } else {
                    assert(d[j + 1] == m[i]);
                }
            }
        }
        assert forall|j: int| 0 <= j < m.len() implies m.contains(#[trigger] d[j]) by {
            if j == k {
                assert(m[m.len() - 1] == d[j]);
            } else {
                let x = if j < k {
                    j
                } else {
                    j - 1
                };
                assert(c[x] == d[j]);
                assert(rest.contains(c[x]));
                let i = choose|i: int| 0 <= i < rest.len() && rest[i] == c[x];
                assert(m[i] == d[j]);
            }
        }
    }
}

/// A plain value is the same as the document that is made of it, which is plain.
proof fn lemma_kept_is_same(t: Tree, depth: int)
    requires
        plain(t, depth),
    ensures
        plain(kept(t), depth),
        same_value(t, kept(t)),
        same_value(kept(t), t),
    decreases t,
{
    match t {
        Tree::Arr(v) => {
            let w = kept_list(v);
            assert forall|i: int| 0 <= i < v.len() implies plain(#[trigger] w[i], depth - 1)
                && same_value(v[i], w[i]) && same_value(w[i], v[i]) by {
                assert(plain(v[i], depth - 1));
                lemma_kept_is_same(v[i], depth - 1);
            }
            assert(same_value(t, kept(t))) by {
                assert forall|i: int| 0 <= i < v.len() implies same_value(#[trigger] v[i], w[i]) by {
                    assert(plain(w[i], depth - 1));
                }
            }
        },
        Tree::Obj(m) => {
            let w = kept_members(m);
            let c = collected(w);
            lemma_plain_members(m, depth);
            assert(distinct(w)) by {
                assert forall|a: int, b: int| 0 <= a < b < w.len() implies (#[trigger] w[a]).0 != (
                #[trigger] w[b]).0 by {
                    assert(m[a].0 != m[b].0);
                }
            }
            lemma_collected(w);
            assert forall|i: int| 0 <= i < m.len() implies plain((#[trigger] w[i]).1, depth - 1)
                && same_value(m[i].1, w[i].1) && same_value(w[i].1, m[i].1) by {
                assert(plain(m[i].1, depth - 1));
                lemma_kept_is_same(m[i].1, depth - 1);
            }
            assert forall|j: int| 0 <= j < c.len() implies plain((#[trigger] c[j]).1, depth - 1) by {
                assert(w.contains(c[j]));
                let i = choose|i: int| 0 <= i < w.len() && w[i] == c[j];
                assert(plain(w[i].1, depth - 1));
            }
            assert forall|i: int| 0 <= i < m.len() implies {
                let k = member_from(c, (#[trigger] m[i]).0, 0);
                k < c.len() && same_value(m[i].1, c[k].1)
            } by {
                assert(c.contains(w[i]));
                let j = choose|j: int| 0 <= j < c.len() && c[j] == w[i];
                lemma_member_from(c, m[i].0, 0, j);
                assert(plain(w[i].1, depth - 1));
            }
            assert forall|j: int| 0 <= j < c.len() implies {
                let k = member_from(m, (#[trigger] c[j]).0, 0);
                k < m.len() && same_value(c[j].1, m[k].1)
            } by {
                assert(w.contains(c[j]));
                let i = choose|i: int| 0 <= i < w.len() && w[i] == c[j];
                lemma_member_from(m, c[j].0, 0, i);
                assert(plain(w[i].1, depth - 1));
            }
        },
        _ => {},
    }
}

/// Whether a value is as every value is that was read: the names of each object are distinct,
/// and each number is told by what it is and written as it is printed.
pub open spec fn is_sound(t: Tree) -> bool
    decreases t,
{
    match t {
        Tree::Real(s) => number_of(s) == t,
        Tree::Neg(n) => n < 0,
        Tree::Arr(v) => forall|i: int| 0 <= i < v.len() ==> is_sound(#[trigger] v[i]),
        Tree::Obj(m) => {
            &&& forall|a: int, b: int|
                0 <= a < b < m.len() ==> #[trigger] m[a].0 != #[trigger] m[b].0
            &&& forall|i: int| 0 <= i < m.len() ==> is_sound((#[trigger] m[i]).1)
        },
        _ => true,
    }
}

/// Whether at most `depth` lists and objects stand inside one another.
pub open spec fn shallow(t: Tree, depth: int) -> bool
    decreases t,
{
    match t {
        Tree::Arr(v) => depth > 0 && forall|i: int|
            0 <= i < v.len() ==> shallow(#[trigger] v[i], depth - 1),
        Tree::Obj(m) => depth > 0 && forall|i: int|
            0 <= i < m.len() ==> shallow((#[trigger] m[i]).1, depth - 1),
        _ => true,
    }
}

proof fn lemma_plain(t: Tree, depth: int)
    requires
        is_sound(t),
        shallow(t, depth),
    ensures
        plain(t, depth),
    decreases t,
{
    match t {
        Tree::Arr(v) => {
            assert forall|i: int| 0 <= i < v.len() implies plain(#[trigger] v[i], depth - 1) by {
                lemma_plain(v[i], depth - 1);
            }
        },
        Tree::Obj(m) => {
            assert forall|i: int| 0 <= i < m.len() implies plain((#[trigger] m[i]).1, depth - 1) by {
                lemma_plain(m[i].1, depth - 1);
            }
        },
        _ => {},
    }
}

/// Whether a value can be read back from its text: the names of each object distinct, each
/// number told by what it is and written as it is printed, and at most `depth` lists and objects
/// inside one another.
pub open spec fn plain(t: Tree, depth: int) -> bool
    decreases t,
{
    match t {
        Tree::Real(s) => number_of(s) == t,
        Tree::Neg(n) => n < 0,
        Tree::Arr(v) => depth > 0 && forall|i: int|
            0 <= i < v.len() ==> plain(#[trigger] v[i], depth - 1),
        Tree::Obj(m) => {
            &&& depth > 0
            &&& forall|a: int, b: int|
                0 <= a < b < m.len() ==> #[trigger] m[a].0 != #[trigger] m[b].0
            &&& forall|i: int| 0 <= i < m.len() ==> plain((#[trigger] m[i]).1, depth - 1)
        },
        _ => true,
    }
}

/// How deep lists and objects may stand inside one another for their text to be read back.
pub const MAX_DEPTH: usize = 127;

/// Whether a text reads as a value.
pub open spec fn reads_as(text: Seq<char>, t: Tree) -> bool {
    match read(text) {
        Some(x) => same_value(t, x) && same_value(x, t),
        None => false,
    }
}

/// Whether a value is a list or an object.
pub open spec fn has_parts(t: Tree) -> bool {
    t is Arr || t is Obj
}

/// `Value` from a value without parts. A number that is not whole is read by
/// `Number::from_str`; a text that is no number stands for null.
#[verifier::external_body]
fn make_leaf(j: &Json) -> (r: Value)
    requires
        !has_parts(j@),
    ensures
        document(r) == (match j@ {
            Tree::Neg(n) => Tree::whole(n),
            Tree::Real(s) => number_of(s),
            t => t,
        }),
{
    match j {
        Json::Bool(b) => Value::from(*b),
        Json::Pos(n) => Value::from(*n),
        Json::Neg(n) => Value::from(*n),
        Json::Real(s) => s.parse::<serde_json::Number>().map_or(Value::Null, Value::Number),
        Json::Str(s) => Value::from(s.as_str()),
        _ => Value::Null,
    }
}

/// The documents of a list.
pub open spec fn documents(v: Seq<Value>) -> Seq<Tree> {
    Seq::new(v.len(), |i: int| document(v[i]))
}

/// `Value::from` on a list of documents.
#[verifier::external_body]
fn make_list(items: Vec<Value>) -> (r: Value)
    ensures
        document(r) == Tree::Arr(documents(items@)),
{
    Value::from(items)
}

/// `Value` from the members of an object, put into a `serde_json::Map` in order. The map is
/// a `BTreeMap`: its names ascend, and the last of equal names is kept.
#[verifier::external_body]
fn make_object(keys: Vec<String>, items: Vec<Value>) -> (r: Value)
    requires
        keys@.len() == items@.len(),
    ensures
        document(r) == Tree::Obj(
            collected(Seq::new(keys@.len(), |i: int| (keys@[i]@, document(items@[i])))),
        ),
{
    Value::Object(keys.into_iter().zip(items).collect())
}

/// `Value::to_string`: the compact text, which rests on the document. A document that is no
/// deeper than the reader allows is read back: a number that is not whole is printed with
/// enough digits, and read with enough precision, to be the same again.
#[verifier::external_body]
fn print_value(v: &Value) -> (r: String)
    ensures
        r@ == compact(document(*v)),
        plain(document(*v), MAX_DEPTH as int) ==> read(r@) == Some(document(*v)),
{
    v.to_string()
}

/// `serde_json::to_string_pretty`, which does not fail on a `Value`: the indented text,
/// which rests on the document. It is read back as the compact text is.
#[verifier::external_body]
fn print_value_pretty(v: &Value) -> (r: String)
    ensures
        r@ == indented(document(*v)),
        plain(document(*v), MAX_DEPTH as int) ==> read(r@) == Some(document(*v)),
{
    serde_json::to_string_pretty(v).unwrap_or_default()
}

fn to_value(j: &Json) -> (r: Value)
    ensures
        document(r) == kept(j@),
    decreases j,
{
    match j {
        Json::Arr(v) => {
            let mut out: Vec<Value> = Vec::new();
            let mut k: usize = 0;
            while k < v.len()
                invariant
                    k <= v@.len(),
                    *j == Json::Arr(*v),
                    documents(out@) == kept_list(trees(v@)).take(k as int),
                decreases v.len() - k,
            {
                let ghost before = documents(out@);
                assert(decreases_to!(*j => (*j)->Arr_0));
                assert(decreases_to!(v@ => v@[k as int]));
                let one = to_value(&v[k]);
                out.push(one);
                assert(documents(out@) =~= before.push(kept_list(trees(v@))[k as int]));
                k = k + 1;
            }
            assert(kept_list(trees(v@)).take(k as int) =~= kept_list(trees(v@)));
            proof {
                lemma_arr(*v);
            }
            make_list(out)
        },
        Json::Obj(v) => {
            let mut keys: Vec<String> = Vec::new();
            let mut out: Vec<Value> = Vec::new();
            let mut k: usize = 0;
            while k < v.len()
                invariant
                    k <= v@.len(),
                    *j == Json::Obj(*v),
                    keys@.len() == k,
                    out@.len() == k,
                    forall|i: int|
                        0 <= i < k ==> (#[trigger] keys@[i]@, document(out@[i])) == kept_members(
                            members(v@),
                        )[i],
                decreases v.len() - k,
            {
                assert(decreases_to!(*j => (*j)->Obj_0));
                assert(decreases_to!(v@ => v@[k as int]));
                assert(decreases_to!(v@[k as int] => v@[k as int].1));
                let one = to_value(&v[k].1);
                keys.push(v[k].0.clone());
                out.push(one);
                k = k + 1;
            }
            proof {
                lemma_obj(*v);
                assert(Seq::new(keys@.len(), |i: int| (keys@[i]@, document(out@[i])))
                    =~= kept_members(members(v@)));
            }
            make_object(keys, out)
        },
        _ => make_leaf(j),
    }
}

impl Json {
    /// The compact text of a value.
    pub fn to_text(&self) -> (r: String)
        ensures
            r@ == printed(self@),
            plain(self@, MAX_DEPTH as int) ==> reads_as(r@, self@) && plain(
                read(r@)->0,
                MAX_DEPTH as int,
            ),
    {
        let v = to_value(self);
        proof {
            if plain(self@, MAX_DEPTH as int) {
                lemma_kept_is_same(self@, MAX_DEPTH as int);
            }
        }
        print_value(&v)
    }

    /// The indented text of a value.
    pub fn to_pretty(&self) -> (r: String)
        ensures
            r@ == printed_pretty(self@),
            plain(self@, MAX_DEPTH as int) ==> reads_as(r@, self@) && plain(
                read(r@)->0,
                MAX_DEPTH as int,
            ),
    {
        let v = to_value(self);
        proof {
            if plain(self@, MAX_DEPTH as int) {
                lemma_kept_is_same(self@, MAX_DEPTH as int);
            }
        }
        print_value_pretty(&v)
    }
}

/// Whether two values are the same; the order of an object's members does not count.
pub open spec fn same_value(a: Tree, b: Tree) -> bool
    decreases a,
{
    match (a, b) {
        (Tree::Arr(v), Tree::Arr(w)) => v.len() == w.len() && forall|i: int|
            0 <= i < v.len() ==> same_value(#[trigger] v[i], w[i]),
        (Tree::Obj(m), Tree::Obj(n)) => m.len() == n.len() && forall|i: int|
            0 <= i < m.len() ==> {
                let k = member_from(n, (#[trigger] m[i]).0, 0);
                k < n.len() && same_value(m[i].1, n[k].1)
            },
        (Tree::Arr(_), _) => false,
        (Tree::Obj(_), _) => false,
        _ => a == b,
    }
}

proof fn lemma_member_bounds(m: Seq<(Seq<char>, Tree)>, key: Seq<char>, k: int)
    requires
        0 <= k <= m.len(),
    ensures
        k <= member_from(m, key, k) <= m.len(),
        member_from(m, key, k) < m.len() ==> m[member_from(m, key, k)].0 == key,
        forall|j: int| k <= j < member_from(m, key, k) ==> (#[trigger] m[j]).0 != key,
    decreases m.len() - k,
{
    if k < m.len() && m[k].0 != key {
        lemma_member_bounds(m, key, k + 1);
    }
}

/// Where a member stands: the first with that name, or the number of members.
pub proof fn lemma_member_place(m: Seq<(Seq<char>, Tree)>, key: Seq<char>)
    ensures
        0 <= member_from(m, key, 0) <= m.len(),
        member_from(m, key, 0) < m.len() ==> m[member_from(m, key, 0)].0 == key,
        forall|j: int| 0 <= j < member_from(m, key, 0) ==> (#[trigger] m[j]).0 != key,
{
    lemma_member_bounds(m, key, 0);
}

impl Json {
    /// Whether two values are the same; the order of an object's members does not count.
    pub fn same(&self, other: &Json) -> (r: bool)
        ensures
            r == same_value(self@, other@),
        decreases self,
    {
        match (self, other) {
            (Json::Null, Json::Null) => true,
            (Json::Bool(a), Json::Bool(b)) => *a == *b,
            (Json::Pos(a), Json::Pos(b)) => *a == *b,
            (Json::Neg(a), Json::Neg(b)) => *a == *b,
            (Json::Real(a), Json::Real(b)) => *a == *b,
            (Json::Str(a), Json::Str(b)) => *a == *b,
            (Json::Arr(v), Json::Arr(w)) => {
                proof {
                    lemma_arr(*v);
                    lemma_arr(*w);
                }
                if v.len() != w.len() {
                    return false;
                }
                let mut k: usize = 0;
                while k < v.len()
                    invariant
                        k <= v@.len(),
                        v@.len() == w@.len(),
                        *self == Json::Arr(*v),
                        self@ == Tree::Arr(trees(v@)),
                        other@ == Tree::Arr(trees(w@)),
                        forall|i: int| 0 <= i < k ==> same_value(#[trigger] trees(v@)[i], trees(w@)[i]),
                    decreases v.len() - k,
                {
                    assert(decreases_to!(*self => (*self)->Arr_0));
                    assert(decreases_to!(v@ => v@[k as int]));
                    if !v[k].same(&w[k]) {
                        assert(!same_value(trees(v@)[k as int], trees(w@)[k as int]));
                        return false;
                    }
                    k = k + 1;
                }
                true
            },
            (Json::Obj(m), Json::Obj(n)) => {
                proof {
                    lemma_obj(*m);
                    lemma_obj(*n);
                }
                if m.len() != n.len() {
                    return false;
                }
                let ghost mv = members(m@);
                let ghost nv = members(n@);
                let mut k: usize = 0;
                while k < m.len()
                    invariant
                        k <= m@.len(),
                        m@.len() == n@.len(),
                        mv == members(m@),
                        nv == members(n@),
                        *self == Json::Obj(*m),
                        self@ == Tree::Obj(mv),
                        other@ == Tree::Obj(nv),
                        forall|i: int|
                            0 <= i < k ==> {
                                let j = member_from(nv, (#[trigger] mv[i]).0, 0);
                                j < nv.len() && same_value(mv[i].1, nv[j].1)
                            },
                    decreases m.len() - k,
                {
                    assert(decreases_to!(*self => (*self)->Obj_0));
                    assert(decreases_to!(m@ => m@[k as int]));
                    assert(decreases_to!(m@[k as int] => m@[k as int].1));
                    assert(mv[k as int] == (m@[k as int].0@, m@[k as int].1@));
                    match other.get(m[k].0.as_str()) {
                        Some(x) => {
                            if !m[k].1.same(x) {
                                return false;
                            }
                        },
                        None => {
                            return false;
                        },
                    }
                    k = k + 1;
                }
                true
            },
            _ => false,
        }
    }
}

/// The members with `key` set to `value`: in place where there is one, else at the end.
pub open spec fn with_member(m: Seq<(Seq<char>, Tree)>, key: Seq<char>, value: Tree) -> Seq<
    (Seq<char>, Tree),
> {
    let k = member_from(m, key, 0);
    if k < m.len() {
        m.update(k, (key, value))
    } else {
        m.push((key, value))
    }
}

/// Sets `key` to `value` among the members of an object.
pub fn set_member(m: &mut Vec<(String, Json)>, key: &str, value: Json)
    ensures
        members(final(m)@) == with_member(members(old(m)@), key@, value@),
{
    let ghost before = members(m@);
    let n: usize = m.len();
    let mut k: usize = 0;
    while k < n
        invariant
            n == m@.len(),
            k <= n,
            before == members(m@),
            before == members(old(m)@),
            member_from(before, key@, k as int) == member_from(before, key@, 0),
        decreases n - k,
    {
        if same(m[k].0.as_str(), key) {
            m.set(k, (key.to_owned(), value));
            assert(members(m@) =~= before.update(k as int, (key@, value@)));
            return;
        }
        k = k + 1;
    }
    m.push((key.to_owned(), value));
    assert(members(m@) =~= before.push((key@, value@)));
}

/// After `key` is set, it has that value, and every other name has what it had.
pub proof fn law_set_member_sets_only_it(
    m: Seq<(Seq<char>, Tree)>,
    key: Seq<char>,
    value: Tree,
    other: Seq<char>,
)
    ensures
        Tree::Obj(with_member(m, key, value)).get(key) == Some(value),
        other != key ==> Tree::Obj(with_member(m, key, value)).get(other) == Tree::Obj(m).get(other),
{
    let w = with_member(m, key, value);
    lemma_member_place(m, key);
    lemma_member_place(m, other);
    lemma_member_place(w, key);
    lemma_member_place(w, other);
    let k = member_from(m, key, 0);
    assert(w[k].0 == key);
    if member_from(w, key, 0) < k {
        assert(m[member_from(w, key, 0)].0 != key);
    }
    assert(member_from(w, key, 0) == k);
    if other != key {
        let a = member_from(m, other, 0);
        let b = member_from(w, other, 0);
        if a < m.len() {
            assert(w[a].0 == other);
            assert(b <= a) by {
                if b > a {
                    assert(w[a].0 != other);
                }
            }
            if b < a {
                assert(w[b].0 == other);
                assert(m[b].0 == other);
            }
        } else {
            if b < w.len() {
                assert(b != k);
                assert(m[b].0 == other);
            }
        }
    }
}

/// A value whose objects have distinct names is the same as itself.
pub proof fn lemma_same_value_reflexive(t: Tree)
    requires
        names_distinct(t),
    ensures
        same_value(t, t),
    decreases t,
{
    match t {
        Tree::Arr(v) => {
            assert forall|i: int| 0 <= i < v.len() implies same_value(#[trigger] v[i], v[i]) by {
                lemma_same_value_reflexive(v[i]);
            }
        },
        Tree::Obj(m) => {
            assert forall|i: int| 0 <= i < m.len() implies {
                let k = member_from(m, (#[trigger] m[i]).0, 0);
                k < m.len() && same_value(m[i].1, m[k].1)
            } by {
                lemma_member_from(m, m[i].0, 0, i);
                lemma_same_value_reflexive(m[i].1);
            }
        },
        _ => {},
    }
}

/// Whether the members of every object in a value have distinct names.
pub open spec fn names_distinct(t: Tree) -> bool
    decreases t,
{
    match t {
        Tree::Arr(v) => forall|i: int| 0 <= i < v.len() ==> names_distinct(#[trigger] v[i]),
        Tree::Obj(m) => {
            &&& forall|a: int, b: int|
                0 <= a < b < m.len() ==> #[trigger] m[a].0 != #[trigger] m[b].0
            &&& forall|i: int| 0 <= i < m.len() ==> names_distinct((#[trigger] m[i]).1)
        },
        _ => true,
    }
}

/// Two values that are the same have the same member under every name.
pub proof fn lemma_same_member(a: Tree, b: Tree, key: Seq<char>)
    requires
        same_value(a, b),
        same_value(b, a),
        plain(a, MAX_DEPTH as int) || (a is Obj ==> forall|i: int, j: int|
            0 <= i < j < a->Obj_0.len() ==> #[trigger] a->Obj_0[i].0 != #[trigger] a->Obj_0[j].0),
    ensures
        a.get(key) is Some == b.get(key) is Some,
        a.get(key) is Some ==> same_value(a.get(key)->0, b.get(key)->0),
{
    if let Tree::Obj(m) = a {
        let n = b->Obj_0;
        let k = member_from(m, key, 0);
        let l = member_from(n, key, 0);
        lemma_member_place(m, key);
        lemma_member_place(n, key);
        if k < m.len() {
            assert(m[k].0 == key);
            assert(l < n.len() && same_value(m[k].1, n[l].1));
        }
        if l < n.len() {
            assert(n[l].0 == key);
            assert(member_from(m, n[l].0, 0) < m.len());
        }
    }
}

/// The members of a plain object have distinct names and are plain.
pub proof fn lemma_plain_members(m: Seq<(Seq<char>, Tree)>, depth: int)
    requires
        plain(Tree::Obj(m), depth),
    ensures
        forall|a: int, b: int|
            0 <= a < b < m.len() ==> (#[trigger] m[a]).0 != (#[trigger] m[b]).0,
        forall|i: int| 0 <= i < m.len() ==> plain((#[trigger] m[i]).1, depth - 1),
{
    let t = Tree::Obj(m);
    assert(t->Obj_0 == m);
    assert(plain(t, depth));
}

/// A plain object stays plain when a member is set to a plain value.
pub proof fn lemma_set_member_is_plain(m: Seq<(Seq<char>, Tree)>, key: Seq<char>, value: Tree, depth: int)
    requires
        plain(Tree::Obj(m), depth),
        plain(value, depth - 1),
    ensures
        plain(Tree::Obj(with_member(m, key, value)), depth),
{
    let w = with_member(m, key, value);
    let k = member_from(m, key, 0);
    lemma_member_place(m, key);
    lemma_plain_members(m, depth);
    assert(depth > 0) by {
        assert(plain(Tree::Obj(m), depth));
    }
    assert forall|a: int, b: int| 0 <= a < b < w.len() implies #[trigger] w[a].0
        != #[trigger] w[b].0 by {
        if a < m.len() && b < m.len() {
            assert(m[a].0 != m[b].0);
            assert(w[a].0 == m[a].0 && w[b].0 == m[b].0);
        } else {
            assert(w[a] == m[a] && w[b].0 == key);
            assert(m[a].0 != key);
        }
    }
    assert forall|i: int| 0 <= i < w.len() implies plain((#[trigger] w[i]).1, depth - 1) by {
        if i != k {
            assert(w[i] == m[i]);
            assert(plain(m[i].1, depth - 1));
        }
    }
}

/// The member under a name is the first with it.
pub proof fn lemma_get_at(m: Seq<(Seq<char>, Tree)>, key: Seq<char>, k: int)
    requires
        0 <= k < m.len(),
        m[k].0 == key,
        forall|j: int| 0 <= j < k ==> (#[trigger] m[j]).0 != key,
    ensures
        Tree::Obj(m).get(key) == Some(m[k].1),
{
    lemma_member_place(m, key);
    let at = member_from(m, key, 0);
    if at < k {
        assert(m[at].0 != key);
    }
}

/// Whether an object has a member: the first of its name, with that value.
pub open spec fn has_member(t: Tree, key: Seq<char>, value: Tree) -> bool {
    match t {
        Tree::Obj(m) => exists|k: int|
            0 <= k < m.len() && #[trigger] m[k] == (key, value) && forall|j: int|
                0 <= j < k ==> (#[trigger] m[j]).0 != key,
        _ => false,
    }
}

/// Looking a name up gives the first member of that name, and nothing where there is none or the
/// value is no object.
pub proof fn law_lookup_gives_the_first_member(t: Tree, key: Seq<char>, value: Tree)
    ensures
        t.get(key) == Some(value) <==> has_member(t, key, value),
        t.get(key) is None <==> (t is Obj ==> forall|k: int|
            0 <= k < t->Obj_0.len() ==> (#[trigger] t->Obj_0[k]).0 != key),
{
    if let Tree::Obj(m) = t {
        lemma_member_place(m, key);
        let k = member_from(m, key, 0);
        if k < m.len() {
            assert(m[k].0 == key);
            if m[k].1 == value {
                assert(m[k] == (key, value));
            }
            if has_member(t, key, value) {
                let i = choose|i: int|
                    0 <= i < m.len() && #[trigger] m[i] == (key, value) && forall|j: int|
                        0 <= j < i ==> (#[trigger] m[j]).0 != key;
                if i < k {
                    assert(m[i].0 == key);
                }
            }
        }
    }
}

/// What a value is read as: a text as itself, a whole number as itself, and anything else as
/// what stands in for it.
pub proof fn law_values_are_read_as_what_they_are(t: Tree, n: i64, text: Seq<char>, v: Seq<Tree>, other: i64, spare: Seq<char>)
    ensures
        whole_or(Some(Tree::whole(n)), other) == n,
        Tree::whole(n).as_i64() == Some(n),
        n >= 0 ==> Tree::whole(n).as_u64() == Some(n as u64),
        n < 0 ==> Tree::whole(n).as_u64() is None,
        text_or(Some(Tree::Str(text)), spare) == text,
        list_or_none(Some(Tree::Arr(v))) == v,
        !(t is Str) ==> text_or(Some(t), spare) == spare && t.as_str() is None,
        !(t is Pos) && !(t is Neg) ==> whole_or(Some(t), other) == other,
        !(t is Arr) ==> list_or_none(Some(t)).len() == 0,
        text_or(None, spare) == spare,
        whole_or(None, other) == other,
        list_or_none(None).len() == 0,
        under(Some(t), text) == t.get(text),
        under(None, text) is None,
{
}

/// The texts of a list of texts are all of them, in order.
pub proof fn law_texts_of_a_list(v: Seq<Seq<char>>)
    ensures
        texts_in(Seq::new(v.len(), |i: int| Tree::Str(v[i]))) == v,
    decreases v.len(),
{
    let t = Seq::new(v.len(), |i: int| Tree::Str(v[i]));
    if v.len() > 0 {
        law_texts_of_a_list(v.drop_last());
        assert(t.drop_last() =~= Seq::new(v.drop_last().len(), |i: int| Tree::Str(v.drop_last()[i])));
        assert(v.drop_last().push(v.last()) =~= v);
    } else {
        assert(texts_in(t) =~= v);
    }
}

/// What else stands in a list leaves no text behind.
pub proof fn law_texts_pass_over_the_rest(v: Seq<Tree>, t: Tree)
    ensures
        t is Str ==> texts_in(v.push(t)) == texts_in(v).push(t->Str_0),
        !(t is Str) ==> texts_in(v.push(t)) == texts_in(v),
{
    assert(v.push(t).drop_last() =~= v);
}

/// The numbers under a name are those of the values that have one, in order.
pub proof fn law_numbers_of_a_list(v: Seq<Tree>, key: Seq<char>, t: Tree, n: i64)
    ensures
        wholes_in(Seq::empty(), key).len() == 0,
        t.get(key) == Some(Tree::whole(n)) ==> wholes_in(v.push(t), key) == wholes_in(v, key).push(n),
        t.get(key) is None ==> wholes_in(v.push(t), key) == wholes_in(v, key),
{
    assert(v.push(t).drop_last() =~= v);
}

} // verus!
