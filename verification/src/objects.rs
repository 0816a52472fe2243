use vstd::prelude::*;

use crate::text::{append_int, int_text};

verus! {

/// A value of the language.
pub enum Object {
    Int(i32),
    Bool(bool),
    /// An error, with its message.
    Error(String),
    Null,
}

/// The mathematical value of an [`Object`].
pub enum ObjectView {
    Int(i32),
    Bool(bool),
    Error(Seq<char>),
    Null,
}

impl View for Object {
    type V = ObjectView;

    open spec fn view(&self) -> ObjectView {
        match self {
            Object::Int(v) => ObjectView::Int(*v),
            Object::Bool(b) => ObjectView::Bool(*b),
            Object::Error(s) => ObjectView::Error(s@),
            Object::Null => ObjectView::Null,
        }
    }
}

impl Clone for Object {
    fn clone(&self) -> (res: Self)
        ensures
            res@ == self@,
    {
        match self {
            Object::Int(v) => Object::Int(*v),
            Object::Bool(b) => Object::Bool(*b),
            Object::Error(s) => Object::Error(s.clone()),
            Object::Null => Object::Null,
        }
    }
}

/// How a value is shown: an integer in decimal, `true` or `false`, `null`, or
/// `error: ` and the message.
pub open spec fn object_text(o: ObjectView) -> Seq<char> {
    match o {
        ObjectView::Int(v) => int_text(v as int),
        ObjectView::Bool(b) => if b { "true"@ } else { "false"@ },
        ObjectView::Null => "null"@,
        ObjectView::Error(s) => "error: "@ + s,
    }
}

impl Object {
    /// How the value is shown (see [`object_text`]).
    pub fn text(&self) -> (res: String)
        ensures
            res@ == object_text(self@),
    {
        match self {
            Object::Int(v) => {
                let mut s = String::new();
                append_int(&mut s, *v);
                assert(s@ =~= int_text(*v as int));
                s
            },
            Object::Bool(v) => if *v {
                String::from_str("true")
            } else {
                String::from_str("false")
            },
            Object::Null => String::from_str("null"),
            Object::Error(s) => {
                let mut res = String::from_str("error: ");
                res.append(s.as_str());
                res
            },
        }
    }
}

/// The map of a list of bindings; a later binding of a name replaces an earlier one.
pub open spec fn bindings_map(s: Seq<(String, Object)>) -> Map<Seq<char>, ObjectView>
    decreases s.len(),
{
    if s.len() == 0 {
        Map::empty()
    } else {
        bindings_map(s.drop_last()).insert(s.last().0@, s.last().1@)
    }
}

/// No name is bound twice.
pub open spec fn distinct_names(s: Seq<(String, Object)>) -> bool {
    forall|i: int, j: int| 0 <= i < s.len() && 0 <= j < s.len() && i != j ==> s[i].0@ != s[j].0@
}

/// The names bound are exactly those of the list.
pub proof fn lemma_bindings_map_dom(s: Seq<(String, Object)>, k: Seq<char>)
    ensures
        bindings_map(s).dom().contains(k) <==> exists|i: int| 0 <= i < s.len() && s[i].0@ == k,
    decreases s.len(),
{
    if s.len() > 0 {
        lemma_bindings_map_dom(s.drop_last(), k);
        if bindings_map(s.drop_last()).dom().contains(k) {
            let i = choose|i: int| 0 <= i < s.drop_last().len() && s.drop_last()[i].0@ == k;
            assert(s[i].0@ == k);
        }
        if exists|i: int| 0 <= i < s.len() && s[i].0@ == k {
            let i = choose|i: int| 0 <= i < s.len() && s[i].0@ == k;
            if i < s.len() - 1 {
                assert(s.drop_last()[i].0@ == k);
            }
        }
    }
}

/// With no name bound twice, each binding's name maps to its value.
pub proof fn lemma_bindings_map_at(s: Seq<(String, Object)>, i: int)
    requires
        distinct_names(s),
        0 <= i < s.len(),
    ensures
        bindings_map(s).dom().contains(s[i].0@),
        bindings_map(s)[s[i].0@] == s[i].1@,
    decreases s.len(),
{
    if i < s.len() - 1 {
        assert(distinct_names(s.drop_last()));
        lemma_bindings_map_at(s.drop_last(), i);
        assert(s.drop_last()[i] == s[i]);
        assert(s.last().0@ != s[i].0@);
    }
}

/// Replacing the value of a binding replaces it in the map.
pub proof fn lemma_bindings_map_update(s: Seq<(String, Object)>, i: int, b: (String, Object))
    requires
        distinct_names(s),
        0 <= i < s.len(),
        b.0@ == s[i].0@,
    ensures
        bindings_map(s.update(i, b)) == bindings_map(s).insert(b.0@, b.1@),
    decreases s.len(),
{
    let t = s.update(i, b);
    if i == s.len() - 1 {
        assert(t.drop_last() =~= s.drop_last());
        lemma_bindings_map_dom(s.drop_last(), b.0@);
        assert(bindings_map(t) =~= bindings_map(s).insert(b.0@, b.1@));
    } else {
        assert(distinct_names(s.drop_last()));
        lemma_bindings_map_update(s.drop_last(), i, b);
        assert(t.drop_last() =~= s.drop_last().update(i, b));
        assert(s.last().0@ != b.0@);
        assert(bindings_map(t) =~= bindings_map(s).insert(b.0@, b.1@));
    }
}

/// The value bound to `k` in `m`, if any.
pub open spec fn lookup(m: Map<Seq<char>, ObjectView>, k: Seq<char>) -> Option<ObjectView> {
    if m.dom().contains(k) {
        Some(m[k])
    } else {
        None
    }
}

/// The value of an optional object.
pub open spec fn opt_object_view(o: Option<Object>) -> Option<ObjectView> {
    match o {
        Some(v) => Some(v@),
        None => None,
    }
}

/// The bindings of names to values.
pub struct Env {
    store: Vec<(String, Object)>,
}

impl Env {
    #[verifier::type_invariant]
    spec fn inv(self) -> bool {
        distinct_names(self.store@)
    }
}

impl View for Env {
    type V = Map<Seq<char>, ObjectView>;

    closed spec fn view(&self) -> Map<Seq<char>, ObjectView> {
        bindings_map(self.store@)
    }
}

impl Env {
    /// No bindings.
    pub fn new() -> (res: Env)
        ensures
            res@ == Map::<Seq<char>, ObjectView>::empty(),
    {
        let res = Env { store: Vec::new() };
        assert(res@ =~= Map::<Seq<char>, ObjectView>::empty());
        res
    }

    /// The position of the binding of `key`, if any.
    fn find(&self, key: &String) -> (res: Option<usize>)
        ensures
            match res {
                Some(i) => i < self.store@.len() && self.store@[i as int].0@ == key@,
                None => forall|i: int| 0 <= i < self.store@.len() ==> self.store@[i].0@ != key@,
            },
    {
        let mut i: usize = 0;
        while i < self.store.len()
            invariant
                i <= self.store@.len(),
                forall|j: int| 0 <= j < i ==> self.store@[j].0@ != key@,
            decreases self.store@.len() - i,
        {
            if self.store[i].0 == *key {
                return Some(i);
            }
            i = i + 1;
        }
        None
    }

    /// The value bound to `key`, if any.
    pub fn get(&self, key: String) -> (res: Option<Object>)
        ensures
            opt_object_view(res) == lookup(self@, key@),
    {
        proof {
            use_type_invariant(self);
            lemma_bindings_map_dom(self.store@, key@);
        }
        match self.find(&key) {
            Some(i) => {
                proof {
                    lemma_bindings_map_at(self.store@, i as int);
                }
                Some(self.store[i].1.clone())
            },
            None => None,
        }
    }

    /// Binds `key` to a copy of `val`, in place of any earlier binding of `key`.
    pub fn set(&mut self, key: String, val: &Object)
        ensures
            final(self)@ == old(self)@.insert(key@, val@),
    {
        proof {
            use_type_invariant(&*self);
        }
        let found = self.find(&key);
        let b = (key, val.clone());
        let mut store: Vec<(String, Object)> = Vec::new();
        std::mem::swap(&mut store, &mut self.store);
        let ghost s = store@;
        match found {
            Some(i) => {
                proof {
                    lemma_bindings_map_update(s, i as int, b);
                }
                store.set(i, b);
                assert(store@ == s.update(i as int, b));
            },
            None => {
                store.push(b);
                assert(store@.drop_last() =~= s);
                assert forall|i: int, j: int|
                    0 <= i < store@.len() && 0 <= j < store@.len() && i != j implies store@[i].0@
                    != store@[j].0@ by {
                    if i < s.len() && j < s.len() {
                        assert(store@[i] == s[i] && store@[j] == s[j]);
                    } else if i < s.len() {
                        assert(store@[i] == s[i]);
                    } else {
                        assert(store@[j] == s[j]);
                    }
                }
            },
        }
        self.store = store;
    }
}

/// Reading a name after binding it gives the value bound; binding a name leaves
/// every other name as it was.
pub proof fn law_get_after_set(
    m: Map<Seq<char>, ObjectView>,
    k: Seq<char>,
    v: ObjectView,
    other: Seq<char>,
)
    ensures
        lookup(m.insert(k, v), k) == Some(v),
        other != k ==> lookup(m.insert(k, v), other) == lookup(m, other),
{
}

} // verus!
