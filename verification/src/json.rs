//! JSON values: reading and changing the fields of objects.

use crate::text::same_text;
use vstd::prelude::*;

verus! {

/// A JSON number. An integer of either form is the same number; a number that is no integer is
/// kept as the bits of a binary64.
#[derive(Clone, Copy, Debug, PartialEq, Eq, Structural)]
pub enum JsonNumber {
    Unsigned(u64),
    Signed(i64),
    Other(u64),
}

/// A JSON value. The fields of an object are kept in a list.
#[derive(Debug)]
pub enum Json {
    Null,
    Bool(bool),
    Number(JsonNumber),
    Text(String),
    List(Vec<Json>),
    Object(Vec<(String, Json)>),
}

/// What a JSON value says.
pub enum Tree {
    Null,
    Bool(bool),
    Number(JsonNumber),
    Text(Seq<char>),
    List(Seq<Tree>),
    Object(Seq<(Seq<char>, Tree)>),
}

impl Json {
    pub open spec fn tree(self) -> Tree
        decreases self,
    {
        match self {
            Json::Null => Tree::Null,
            Json::Bool(b) => Tree::Bool(b),
            Json::Number(n) => Tree::Number(n),
            Json::Text(s) => Tree::Text(s@),
            Json::List(v) => Tree::List(
                Seq::new(
                    v@.len(),
                    |i: int|
                        if 0 <= i < v@.len() {
                            v@[i].tree()
                        } else {
                            Tree::Null
                        },
                ),
            ),
            Json::Object(v) => Tree::Object(
                Seq::new(
                    v@.len(),
                    |i: int|
                        if 0 <= i < v@.len() {
                            (v@[i].0@, v@[i].1.tree())
                        } else {
                            (Seq::empty(), Tree::Null)
                        },
                ),
            ),
        }
    }
}

/// What a list of JSON values says.
pub open spec fn trees(s: Seq<Json>) -> Seq<Tree> {
    s.map_values(|j: Json| j.tree())
}

/// What a list of fields says.
pub open spec fn fields(s: Seq<(String, Json)>) -> Seq<(Seq<char>, Tree)> {
    s.map_values(|f: (String, Json)| (f.0@, f.1.tree()))
}

/// What the value of a list says.
pub proof fn lemma_list_tree(v: Vec<Json>)
    ensures
        Json::List(v).tree() == Tree::List(trees(v@)),
{
    assert(Json::List(v).tree()->List_0 =~= trees(v@));
}

/// What the value of an object says.
pub proof fn lemma_object_tree(f: Vec<(String, Json)>)
    ensures
        Json::Object(f).tree() == Tree::Object(fields(f@)),
{
    assert(Json::Object(f).tree()->Object_0 =~= fields(f@));
}

/// The index of the first field with the name `key`.
pub open spec fn position(f: Seq<(Seq<char>, Tree)>, key: Seq<char>) -> Option<int>
    decreases f.len(),
{
    if f.len() == 0 {
        None
    } else {
        match position(f.drop_last(), key) {
            Some(i) => Some(i),
            None => if f.last().0 == key {
                Some(f.len() - 1)
            } else {
                None
            },
        }
    }
}

pub proof fn lemma_position(f: Seq<(Seq<char>, Tree)>, key: Seq<char>)
    ensures
        match position(f, key) {
            Some(i) => 0 <= i < f.len() && f[i].0 == key && forall|j: int|
                0 <= j < i ==> (#[trigger] f[j]).0 != key,
            None => forall|j: int| 0 <= j < f.len() ==> (#[trigger] f[j]).0 != key,
        },
    decreases f.len(),
{
    if f.len() > 0 {
        lemma_position(f.drop_last(), key);
        assert(forall|j: int| 0 <= j < f.len() - 1 ==> f.drop_last()[j] == #[trigger] f[j]);
    }
}

/// An index that holds the name `key` and has none before it that does is its position.
pub proof fn lemma_position_is(f: Seq<(Seq<char>, Tree)>, key: Seq<char>, i: int)
    requires
        0 <= i < f.len(),
        f[i].0 == key,
        forall|j: int| 0 <= j < i ==> (#[trigger] f[j]).0 != key,
    ensures
        position(f, key) == Some(i),
{
    lemma_position(f, key);
}

/// The value of the field `key`.
pub open spec fn field(f: Seq<(Seq<char>, Tree)>, key: Seq<char>) -> Option<Tree> {
    match position(f, key) {
        Some(i) => Some(f[i].1),
        None => None,
    }
}

/// The fields after `key` is set to `value`.
pub open spec fn with_field(
    f: Seq<(Seq<char>, Tree)>,
    key: Seq<char>,
    value: Tree,
) -> Seq<(Seq<char>, Tree)> {
    match position(f, key) {
        Some(i) => f.update(i, (key, value)),
        None => f.push((key, value)),
    }
}

/// The fields after `key` is taken away.
pub open spec fn without_field(f: Seq<(Seq<char>, Tree)>, key: Seq<char>) -> Seq<
    (Seq<char>, Tree),
> {
    match position(f, key) {
        Some(i) => f.remove(i),
        None => f,
    }
}

/// The value of the field `key`, where the value is an object that has one.
pub open spec fn get(t: Tree, key: Seq<char>) -> Option<Tree> {
    match t {
        Tree::Object(f) => field(f, key),
        _ => None,
    }
}

/// The text in the field `key`, where there is one.
pub open spec fn text_in(t: Tree, key: Seq<char>) -> Option<Seq<char>> {
    match get(t, key) {
        Some(Tree::Text(s)) => Some(s),
        _ => None,
    }
}

/// The number in the field `key`, where there is one that is an integer and not negative.
pub open spec fn number_in(t: Tree, key: Seq<char>) -> Option<u64> {
    match get(t, key) {
        Some(Tree::Number(JsonNumber::Unsigned(n))) => Some(n),
        Some(Tree::Number(JsonNumber::Signed(n))) => if n >= 0 {
            Some(n as u64)
        } else {
            None
        },
        _ => None,
    }
}

/// The list in the field `key`, where there is one.
pub open spec fn list_in(t: Tree, key: Seq<char>) -> Option<Seq<Tree>> {
    match get(t, key) {
        Some(Tree::List(s)) => Some(s),
        _ => None,
    }
}

/// No two fields have the same name.
pub open spec fn distinct_names(f: Seq<(Seq<char>, Tree)>) -> bool {
    forall|i: int, j: int|
        0 <= i < j < f.len() ==> (#[trigger] f[i]).0 != (#[trigger] f[j]).0
}

/// A field that is set reads back, and the other fields stay as they are.
pub proof fn set_field_reads_back(
    f: Seq<(Seq<char>, Tree)>,
    key: Seq<char>,
    value: Tree,
    other: Seq<char>,
)
    ensures
        field(with_field(f, key, value), key) == Some(value),
        other != key ==> field(with_field(f, key, value), other) == field(f, other),
        distinct_names(f) ==> distinct_names(with_field(f, key, value)),
{
    let g = with_field(f, key, value);
    lemma_position(f, key);
    lemma_position(f, other);
    match position(f, key) {
        Some(i) => {
            lemma_position_is(g, key, i);
        },
        None => {
            lemma_position_is(g, key, f.len() as int);
        },
    }
    if other != key {
        lemma_position(g, other);
        match position(f, other) {
            Some(i) => {
                assert(g[i] == f[i]);
                assert forall|j: int| 0 <= j < i implies (#[trigger] g[j]).0 != other by {
                    assert(f[j].0 != other);
                }
                lemma_position_is(g, other, i);
            },
            None => {
                assert forall|j: int| 0 <= j < g.len() implies (#[trigger] g[j]).0 != other by {
                    if j < f.len() {
                        assert(f[j].0 != other);
                    }
                }
            },
        }
    }
}

/// A field that is taken away is gone, and the other fields stay as they are.
pub proof fn removed_field_is_gone(
    f: Seq<(Seq<char>, Tree)>,
    key: Seq<char>,
    other: Seq<char>,
)
    ensures
        distinct_names(f) ==> field(without_field(f, key), key) is None,
        other != key ==> field(without_field(f, key), other) == field(f, other),
        distinct_names(f) ==> distinct_names(without_field(f, key)),
{
    let g = without_field(f, key);
    lemma_position(f, key);
    lemma_position(g, key);
    lemma_position(f, other);
    lemma_position(g, other);
    if let Some(i) = position(f, key) {
        if distinct_names(f) {
            assert forall|j: int| 0 <= j < g.len() implies (#[trigger] g[j]).0 != key by {
                if j >= i {
                    assert(g[j] == f[j + 1]);
                } else {
                    assert(g[j] == f[j]);
                }
            }
        }
        if other != key {
            if let Some(k) = position(f, other) {
                let at: int = if k < i {
                    k
                } else {
                    k - 1
                };
                assert(g[at] == f[k]);
                assert forall|j: int| 0 <= j < at implies (#[trigger] g[j]).0 != other by {
                    if j < i {
                        assert(g[j] == f[j]);
                    } else {
                        assert(g[j] == f[j + 1]);
                    }
                }
                lemma_position_is(g, other, at);
            } else {
                assert forall|j: int| 0 <= j < g.len() implies (#[trigger] g[j]).0 != other by {
                    if j < i {
                        assert(g[j] == f[j]);
                    } else {
                        assert(g[j] == f[j + 1]);
                    }
                }
            }
        }
    }
}

/// A field is read by its name: the first with the name gives the value, and where none has it, or the
/// value is no object, there is none. A text, a number or a list is read only where the value is one;
/// a number only where it is an integer that is not negative.
pub proof fn fields_are_read_by_name(t: Tree, key: Seq<char>, i: int, n: u64)
    ensures
        !(t is Object) ==> get(t, key) is None,
        t is Object ==> {
            let f = t->Object_0;
            &&& 0 <= i < f.len() && f[i].0 == key && (forall|j: int|
                0 <= j < i ==> (#[trigger] f[j]).0 != key) ==> get(t, key) == Some(f[i].1)
            &&& (forall|j: int| 0 <= j < f.len() ==> (#[trigger] f[j]).0 != key) ==> get(
                t,
                key,
            ) is None
        },
        text_in(t, key) is Some <==> get(t, key) is Some && get(t, key)->0 is Text,
        text_in(t, key) is Some ==> get(t, key)->0 == Tree::Text(text_in(t, key)->0),
        list_in(t, key) is Some <==> get(t, key) is Some && get(t, key)->0 is List,
        list_in(t, key) is Some ==> get(t, key)->0 == Tree::List(list_in(t, key)->0),
        number_in(t, key) == Some(n) <==> get(t, key) == Some(
            Tree::Number(JsonNumber::Unsigned(n)),
        ) || (get(t, key) == Some(Tree::Number(JsonNumber::Signed(n as i64))) && n <= i64::MAX),
{
    if let Tree::Object(f) = t {
        lemma_position(f, key);
        if 0 <= i < f.len() && f[i].0 == key && (forall|j: int|
            0 <= j < i ==> (#[trigger] f[j]).0 != key) {
            lemma_position_is(f, key, i);
        }
    }
    if let Some(Tree::Number(JsonNumber::Signed(m))) = get(t, key) {
        if m >= 0 {
            assert((m as u64) as i64 == m);
            assert(m as u64 <= i64::MAX);
        }
        if n <= i64::MAX {
            assert((n as i64) as u64 == n);
        }
    }
}

/// The index of the first field with the name `key`.
pub fn find_field(f: &Vec<(String, Json)>, key: &str) -> (r: Option<usize>)
    ensures
        match r {
            Some(i) => position(fields(f@), key@) == Some(i as int) && i < f@.len(),
            None => position(fields(f@), key@) is None,
        },
{
    for i in 0..f.len()
        invariant
            forall|j: int| 0 <= j < i ==> (#[trigger] fields(f@)[j]).0 != key@,
    {
        assert(fields(f@)[i as int].0 == f@[i as int].0@);
        if same_text(f[i].0.as_str(), key) {
            proof {
                lemma_position_is(fields(f@), key@, i as int);
            }
            return Some(i);
        }
    }
    proof {
        lemma_position(fields(f@), key@);
    }
    None
}

/// Sets the field `key`.
pub fn set_field(f: &mut Vec<(String, Json)>, key: &str, value: Json)
    ensures
        fields(final(f)@) == with_field(fields(old(f)@), key@, value.tree()),
{
    match find_field(f, key) {
        Some(i) => {
            f.set(i, (key.to_owned(), value));
            assert(fields(f@) =~= fields(old(f)@).update(i as int, (key@, value.tree())));
        },
        None => {
            f.push((key.to_owned(), value));
            assert(fields(f@) =~= fields(old(f)@).push((key@, value.tree())));
        },
    }
}

/// Takes the field `key` away.
pub fn remove_field(f: &mut Vec<(String, Json)>, key: &str)
    ensures
        fields(final(f)@) == without_field(fields(old(f)@), key@),
{
    if let Some(i) = find_field(f, key) {
        f.remove(i);
        assert(fields(f@) =~= fields(old(f)@).remove(i as int));
    }
}

impl Json {
    /// The value of the field `key`, where the value is an object that has one.
    pub fn get(&self, key: &str) -> (r: Option<&Json>)
        ensures
            match r {
                Some(j) => get(self.tree(), key@) == Some(j.tree()),
                None => get(self.tree(), key@) is None,
            },
    {
        match self {
            Json::Object(f) => {
                proof {
                    lemma_object_tree(*f);
                }
                match find_field(f, key) {
                    Some(i) => {
                        assert(fields(f@)[i as int].1 == f@[i as int].1.tree());
                        Some(&f[i].1)
                    },
                    None => None,
                }
            },
            _ => None,
        }
    }

    /// The text in the field `key`, where there is one.
    pub fn text_at(&self, key: &str) -> (r: Option<&String>)
        ensures
            match r {
                Some(s) => text_in(self.tree(), key@) == Some(s@),
                None => text_in(self.tree(), key@) is None,
            },
    {
        match self.get(key) {
            Some(Json::Text(s)) => Some(s),
            _ => None,
        }
    }

    /// Whether the field `key` holds the text `s`.
    pub fn text_is(&self, key: &str, s: &str) -> (r: bool)
        ensures
            r == (text_in(self.tree(), key@) == Some(s@)),
    {
        match self.text_at(key) {
            Some(t) => same_text(t.as_str(), s),
            None => false,
        }
    }

    /// The number in the field `key`, where there is one that is an integer and not negative.
    pub fn number_at(&self, key: &str) -> (r: Option<u64>)
        ensures
            r == number_in(self.tree(), key@),
    {
        match self.get(key) {
            Some(Json::Number(JsonNumber::Unsigned(n))) => Some(*n),
            Some(Json::Number(JsonNumber::Signed(n))) => if *n >= 0 {
                Some(*n as u64)
            } else {
                None
            },
            _ => None,
        }
    }

    /// The list in the field `key`, where there is one.
    pub fn list_at(&self, key: &str) -> (r: Option<&Vec<Json>>)
        ensures
            match r {
                Some(v) => list_in(self.tree(), key@) == Some(trees(v@)),
                None => list_in(self.tree(), key@) is None,
            },
    {
        match self.get(key) {
            Some(Json::List(v)) => {
                proof {
                    lemma_list_tree(*v);
                }
                Some(v)
            },
            _ => None,
        }
    }

    /// Another value that says the same.
    pub fn duplicate(&self) -> (r: Json)
        ensures
            r.tree() == self.tree(),
        decreases self,
    {
        match self {
            Json::Null => Json::Null,
            Json::Bool(b) => Json::Bool(*b),
            Json::Number(n) => Json::Number(*n),
            Json::Text(s) => Json::Text(s.clone()),
            Json::List(v) => {
                let mut out: Vec<Json> = Vec::new();
                for i in 0..v.len()
                    invariant
                        *self == Json::List(*v),
                        out@.len() == i,
                        forall|j: int| 0 <= j < i ==> (#[trigger] out@[j]).tree() == v@[j].tree(),
                {
                    assert(decreases_to!(*self => self->List_0));
                    assert(decreases_to!(v => v@));
                    assert(decreases_to!(v@ => v@[i as int]));
                    out.push(v[i].duplicate());
                }
                proof {
                    lemma_list_tree(out);
                    lemma_list_tree(*v);
                    assert(trees(out@) =~= trees(v@));
                }
                Json::List(out)
            },
            Json::Object(f) => {
                let mut out: Vec<(String, Json)> = Vec::new();
                for i in 0..f.len()
                    invariant
                        *self == Json::Object(*f),
                        out@.len() == i,
                        forall|j: int|
                            0 <= j < i ==> (#[trigger] out@[j]).0@ == f@[j].0@ && out@[j].1.tree()
                                == f@[j].1.tree(),
                {
                    assert(decreases_to!(*self => self->Object_0));
                    assert(decreases_to!(f => f@));
                    assert(decreases_to!(f@ => f@[i as int]));
                    assert(decreases_to!(f@[i as int] => f@[i as int].1));
                    let item = &f[i];
                    out.push((item.0.clone(), item.1.duplicate()));
                }
                proof {
                    lemma_object_tree(out);
                    lemma_object_tree(*f);
                    assert(fields(out@) =~= fields(f@));
                }
                Json::Object(out)
            },
        }
    }
}

} // verus!
