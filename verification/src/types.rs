//! The value tree shared by the parser and the composer.

use vstd::prelude::*;

verus! {

/// One value of a preference document.
#[derive(Debug, PartialEq)]
pub enum Value {
    /// The empty collection marker `{ }`.
    Unit,
    /// A signed 64-bit integer.
    Int(i64),
    /// A floating-point number, held as the numeric token that denotes it.
    Float(String),
    /// `true` or `false`.
    Bool(bool),
    /// A text, with its escape sequences resolved.
    String(String),
    /// An ordered list of values.
    Values(Vec<Value>),
    /// An ordered mapping from keys to values.
    Struct(OrderedMap),
}

/// A mapping from keys to values that keeps its keys in the order in which
/// they were first inserted.
#[derive(Debug, PartialEq)]
pub struct OrderedMap {
    pub entries: Vec<(String, Value)>,
}

/// The mathematical model of a [`Value`].
pub enum ValueView {
    Unit,
    Int(i64),
    Float(Seq<char>),
    Bool(bool),
    String(Seq<char>),
    Values(Seq<ValueView>),
    Struct(Seq<(Seq<char>, ValueView)>),
}

/// The model of a value, field by field.
pub open spec fn model_of(v: Value) -> ValueView
    decreases v,
{
    match v {
        Value::Unit => ValueView::Unit,
        Value::Int(i) => ValueView::Int(i),
        Value::Float(t) => ValueView::Float(t@),
        Value::Bool(b) => ValueView::Bool(b),
        Value::String(s) => ValueView::String(s@),
        Value::Values(vs) => ValueView::Values(
            Seq::new(
                vs.len() as nat,
                |i: int|
                    if 0 <= i < vs.len() {
                        model_of(vs[i])
                    } else {
                        ValueView::Unit
                    },
            ),
        ),
        Value::Struct(m) => ValueView::Struct(
            Seq::new(
                m.entries.len() as nat,
                |i: int|
                    if 0 <= i < m.entries.len() {
                        (m.entries[i].0@, model_of(m.entries[i].1))
                    } else {
                        (Seq::empty(), ValueView::Unit)
                    },
            ),
        ),
    }
}

impl View for Value {
    type V = ValueView;

    open spec fn view(&self) -> ValueView {
        model_of(*self)
    }
}

/// The models of the entries of a mapping, entry by entry.
pub open spec fn entries_view(es: Seq<(String, Value)>) -> Seq<(Seq<char>, ValueView)> {
    Seq::new(es.len(), |i: int| (es[i].0@, es[i].1@))
}

impl View for OrderedMap {
    type V = Seq<(Seq<char>, ValueView)>;

    open spec fn view(&self) -> Seq<(Seq<char>, ValueView)> {
        entries_view(self.entries@)
    }
}

/// A preference document: one named value.
#[derive(Debug, PartialEq)]
pub struct Agpref {
    pub name: String,
    pub values: Value,
}

/// The mathematical model of an [`Agpref`].
pub struct AgprefView {
    pub name: Seq<char>,
    pub values: ValueView,
}

impl View for Agpref {
    type V = AgprefView;

    open spec fn view(&self) -> AgprefView {
        AgprefView { name: self.name@, values: self.values@ }
    }
}

/// The position of the first entry with the key `k`, if there is one.
pub open spec fn position_of(m: Seq<(Seq<char>, ValueView)>, k: Seq<char>) -> Option<int>
    decreases m.len(),
{
    if m.len() == 0 {
        None
    } else {
        match position_of(m.drop_last(), k) {
            Some(i) => Some(i),
            None => if m.last().0 == k {
                Some(m.len() - 1)
            } else {
                None
            },
        }
    }
}

/// The mapping with `v` under the key `k`: in the place of the entry that
/// had this key, or at the end if there was none.
pub open spec fn inserted(m: Seq<(Seq<char>, ValueView)>, k: Seq<char>, v: ValueView) -> Seq<
    (Seq<char>, ValueView),
> {
    match position_of(m, k) {
        Some(i) => m.update(i, (k, v)),
        None => m.push((k, v)),
    }
}

/// The mapping that holds the given pairs, inserted one after the other.
pub open spec fn collected(pairs: Seq<(Seq<char>, ValueView)>) -> Seq<(Seq<char>, ValueView)>
    decreases pairs.len(),
{
    if pairs.len() == 0 {
        Seq::empty()
    } else {
        inserted(collected(pairs.drop_last()), pairs.last().0, pairs.last().1)
    }
}

/// Whether no two entries have the same key.
pub open spec fn distinct_keys(m: Seq<(Seq<char>, ValueView)>) -> bool {
    forall|i: int, j: int| 0 <= i < j < m.len() ==> (#[trigger] m[i]).0 != (#[trigger] m[j]).0
}

/// What `position_of` returns: the first position with the key, if any.
pub proof fn lemma_position_of(m: Seq<(Seq<char>, ValueView)>, k: Seq<char>)
    ensures
        match position_of(m, k) {
            Some(i) => 0 <= i < m.len() && m[i].0 == k && forall|j: int|
                0 <= j < i ==> (#[trigger] m[j]).0 != k,
            None => forall|j: int| 0 <= j < m.len() ==> (#[trigger] m[j]).0 != k,
        },
    decreases m.len(),
{
    if m.len() > 0 {
        lemma_position_of(m.drop_last(), k);
        match position_of(m.drop_last(), k) {
            Some(i) => {
                assert(m.drop_last()[i] == m[i]);
                assert forall|j: int| 0 <= j < i implies (#[trigger] m[j]).0 != k by {
                    assert(m.drop_last()[j] == m[j]);
                }
            },
            None => {
                assert forall|j: int| 0 <= j < m.len() - 1 implies (#[trigger] m[j]).0 != k by {
                    assert(m.drop_last()[j] == m[j]);
                }
            },
        }
    }
}

/// Inserting keeps the keys distinct.
pub proof fn lemma_inserted_distinct(m: Seq<(Seq<char>, ValueView)>, k: Seq<char>, v: ValueView)
    requires
        distinct_keys(m),
    ensures
        distinct_keys(inserted(m, k, v)),
{
    lemma_position_of(m, k);
}

/// A document whose value is a list. A string may hold the text of one:
/// reading it as such is up to the caller.
#[derive(Debug, PartialEq)]
pub struct NamedList {
    pub name: String,
    pub values: Vec<Value>,
}

/// The mathematical model of a [`NamedList`].
pub struct NamedListView {
    pub name: Seq<char>,
    pub values: Seq<ValueView>,
}

impl View for NamedList {
    type V = NamedListView;

    open spec fn view(&self) -> NamedListView {
        NamedListView { name: self.name@, values: view_all(self.values@) }
    }
}

/// The keys of a mapping, in the order of its entries.
pub open spec fn keys_of(m: Seq<(Seq<char>, ValueView)>) -> Seq<Seq<char>> {
    Seq::new(m.len(), |i: int| m[i].0)
}

/// Inserting keeps the order of the keys: a key that the mapping holds stays
/// where it was first inserted, and a new key comes behind all others.
pub proof fn lemma_insertion_order(m: Seq<(Seq<char>, ValueView)>, k: Seq<char>, v: ValueView)
    ensures
        position_of(m, k) is Some ==> keys_of(inserted(m, k, v)) == keys_of(m),
        position_of(m, k) is None ==> keys_of(inserted(m, k, v)) == keys_of(m).push(k),
{
    lemma_position_of(m, k);
    if position_of(m, k) is Some {
        assert(keys_of(inserted(m, k, v)) =~= keys_of(m));
    } else {
        assert(keys_of(inserted(m, k, v)) =~= keys_of(m).push(k));
    }
}

/// The keys of a list of keys without those that came before, in the order
/// in which each came first.
pub open spec fn first_keys(ks: Seq<Seq<char>>) -> Seq<Seq<char>>
    decreases ks.len(),
{
    if ks.len() == 0 {
        Seq::empty()
    } else if first_keys(ks.drop_last()).contains(ks.last()) {
        first_keys(ks.drop_last())
    } else {
        first_keys(ks.drop_last()).push(ks.last())
    }
}

/// The keys of a mapping that was collected from pairs stand in the order in
/// which each key came first among the pairs.
pub proof fn lemma_collected_order(pairs: Seq<(Seq<char>, ValueView)>)
    ensures
        keys_of(collected(pairs)) == first_keys(keys_of(pairs)),
    decreases pairs.len(),
{
    if pairs.len() == 0 {
        assert(keys_of(collected(pairs)) =~= first_keys(keys_of(pairs)));
    } else {
        let front = pairs.drop_last();
        let m = collected(front);
        let k = pairs.last().0;
        lemma_collected_order(front);
        assert(keys_of(pairs).drop_last() =~= keys_of(front));
        assert(keys_of(pairs).last() == k);
        lemma_position_of(m, k);
        lemma_insertion_order(m, k, pairs.last().1);
        if position_of(m, k) is Some {
            let i = position_of(m, k)->0;
            assert(keys_of(m)[i] == k);
        } else {
            if keys_of(m).contains(k) {
                let i = choose|i: int| 0 <= i < keys_of(m).len() && keys_of(m)[i] == k;
                assert(m[i].0 == k);
            }
        }
    }
}

/// The entries that were collected one after the other have keys that
/// differ from each other.
pub proof fn lemma_collected_is_distinct(pairs: Seq<(Seq<char>, ValueView)>)
    ensures
        distinct_keys(collected(pairs)),
    decreases pairs.len(),
{
    if pairs.len() > 0 {
        lemma_collected_is_distinct(pairs.drop_last());
        lemma_inserted_distinct(collected(pairs.drop_last()), pairs.last().0, pairs.last().1);
    }
}

/// The models of a list of values, element by element.
pub open spec fn view_all(vs: Seq<Value>) -> Seq<ValueView> {
    Seq::new(vs.len(), |i: int| vs[i]@)
}

/// The model of a list is the list of its elements' models.
pub proof fn lemma_view_values(vs: Vec<Value>)
    ensures
        Value::Values(vs)@ == ValueView::Values(view_all(vs@)),
{
    assert forall|i: int| 0 <= i < vs@.len() implies Value::Values(vs)@->Values_0[i] == vs@[i]@ by {
        vstd::std_specs::vec::axiom_vec_index_decreases(vs, i);
    }
    assert(Value::Values(vs)@->Values_0 =~= view_all(vs@));
}

/// The model of a mapping value is the model of its mapping.
pub proof fn lemma_view_struct(m: OrderedMap)
    ensures
        Value::Struct(m)@ == ValueView::Struct(m@),
{
    assert forall|i: int| 0 <= i < m.entries@.len() implies Value::Struct(m)@->Struct_0[i] == (
        m.entries@[i].0@,
        m.entries@[i].1@,
    ) by {
        vstd::std_specs::vec::axiom_vec_index_decreases(m.entries, i);
    }
    assert(Value::Struct(m)@->Struct_0 =~= m@);
}

impl OrderedMap {
    /// Whether no two entries have the same key.
    pub open spec fn wf(&self) -> bool {
        distinct_keys(self@)
    }

    /// A mapping without entries.
    pub fn new() -> (m: Self)
        ensures
            m@ == Seq::<(Seq<char>, ValueView)>::empty(),
            m.wf(),
    {
        let m = OrderedMap { entries: Vec::new() };
        assert(m@ =~= Seq::<(Seq<char>, ValueView)>::empty());
        m
    }

    /// The number of entries.
    pub fn len(&self) -> (n: usize)
        ensures
            n == self@.len(),
    {
        self.entries.len()
    }

    /// Whether there is no entry.
    pub fn is_empty(&self) -> (b: bool)
        ensures
            b == (self@.len() == 0),
    {
        self.entries.len() == 0
    }

    /// The position of the entry with the given key, if there is one.
    pub fn get_index_of(&self, key: &str) -> (found: Option<usize>)
        ensures
            match found {
                Some(i) => position_of(self@, key@) == Some(i as int),
                None => position_of(self@, key@) is None,
            },
    {
        let wanted = key.to_owned();
        let mut i: usize = 0;
        while i < self.entries.len()
            invariant
                i <= self.entries.len(),
                wanted@ == key@,
                forall|j: int| 0 <= j < i ==> (#[trigger] self@[j]).0 != key@,
            decreases self.entries.len() - i,
        {
            if self.entries[i].0 == wanted {
                proof {
                    assert(self@[i as int].0 == key@);
                    lemma_position_of(self@, key@);
                }
                return Some(i);
            }
            assert(self@[i as int].0 != key@);
            i += 1;
        }
        proof {
            lemma_position_of(self@, key@);
        }
        None
    }

    /// Whether there is an entry with the given key.
    pub fn contains_key(&self, key: &str) -> (b: bool)
        ensures
            b == position_of(self@, key@).is_some(),
    {
        self.get_index_of(key).is_some()
    }

    /// The value under the given key, if there is one.
    pub fn get(&self, key: &str) -> (found: Option<&Value>)
        ensures
            match position_of(self@, key@) {
                Some(i) => found matches Some(v) && v@ == self@[i].1,
                None => found is None,
            },
    {
        match self.get_index_of(key) {
            Some(i) => {
                proof {
                    lemma_position_of(self@, key@);
                }
                Some(&self.entries[i].1)
            },
            None => None,
        }
    }

    /// The key and the value of the entry at the given position, if there
    /// are that many entries.
    pub fn get_index(&self, i: usize) -> (found: Option<(&String, &Value)>)
        ensures
            match found {
                Some(kv) => i < self@.len() && kv.0@ == self@[i as int].0 && kv.1@
                    == self@[i as int].1,
                None => i >= self@.len(),
            },
    {
        if i < self.entries.len() {
            Some((&self.entries[i].0, &self.entries[i].1))
        } else {
            None
        }
    }

    /// Puts `value` under `key`: in the place of the entry that had this
    /// key, whose value is returned, or at the end if there was none.
    pub fn insert(&mut self, key: String, value: Value) -> (previous: Option<Value>)
        ensures
            final(self)@ == inserted(old(self)@, key@, value@),
            old(self).wf() ==> final(self).wf(),
            match position_of(old(self)@, key@) {
                Some(i) => previous matches Some(v) && v@ == old(self)@[i].1,
                None => previous is None,
            },
    {
        proof {
            lemma_position_of(self@, key@);
            if self.wf() {
                lemma_inserted_distinct(self@, key@, value@);
            }
        }
        match self.get_index_of(key.as_str()) {
            Some(i) => {
                let old_entry = self.entries.remove(i);
                self.entries.insert(i, (key, value));
                assert(self@ =~= inserted(old(self)@, key@, value@));
                Some(old_entry.1)
            },
            None => {
                self.entries.push((key, value));
                assert(self@ =~= inserted(old(self)@, key@, value@));
                None
            },
        }
    }

    /// The keys, in the order of the entries.
    pub fn keys(&self) -> (out: Vec<String>)
        ensures
            out@.len() == self@.len(),
            forall|i: int| 0 <= i < out@.len() ==> (#[trigger] out@[i])@ == self@[i].0,
    {
        let mut out: Vec<String> = Vec::new();
        let mut i: usize = 0;
        while i < self.entries.len()
            invariant
                i <= self.entries.len(),
                out@.len() == i,
                forall|j: int| 0 <= j < i ==> (#[trigger] out@[j])@ == self@[j].0,
            decreases self.entries.len() - i,
        {
            out.push(self.entries[i].0.clone());
            i += 1;
        }
        out
    }
}

impl Value {
    /// Whether the value is the unit value.
    pub fn is_unit(&self) -> (b: bool)
        ensures
            b == (self@ is Unit),
    {
        match self {
            Value::Unit => true,
            _ => false,
        }
    }

    /// The integer, if the value is one.
    pub fn get_int(&self) -> (found: Option<i64>)
        ensures
            found == (match self@ {
                ValueView::Int(i) => Some(i),
                _ => None,
            }),
    {
        match self {
            Value::Int(i) => Some(*i),
            _ => None,
        }
    }

    /// The token of the floating-point number, if the value is one.
    pub fn get_float(&self) -> (found: Option<&str>)
        ensures
            match self@ {
                ValueView::Float(t) => found matches Some(s) && s@ == t,
                _ => found is None,
            },
    {
        match self {
            Value::Float(t) => Some(t.as_str()),
            _ => None,
        }
    }

    /// The boolean, if the value is one.
    pub fn get_bool(&self) -> (found: Option<bool>)
        ensures
            found == (match self@ {
                ValueView::Bool(b) => Some(b),
                _ => None,
            }),
    {
        match self {
            Value::Bool(b) => Some(*b),
            _ => None,
        }
    }

    /// The text, if the value is a string.
    pub fn get_string(&self) -> (found: Option<&str>)
        ensures
            match self@ {
                ValueView::String(t) => found matches Some(s) && s@ == t,
                _ => found is None,
            },
    {
        match self {
            Value::String(s) => Some(s.as_str()),
            _ => None,
        }
    }

    /// The values, if the value is a list.
    pub fn get_values(&self) -> (found: Option<&Vec<Value>>)
        ensures
            match self@ {
                ValueView::Values(vs) => found matches Some(list) && view_all(list@) == vs,
                _ => found is None,
            },
    {
        match self {
            Value::Values(vs) => {
                proof {
                    lemma_view_values(*vs);
                }
                Some(vs)
            },
            _ => None,
        }
    }

    /// The mapping, if the value is one.
    pub fn get_struct(&self) -> (found: Option<&OrderedMap>)
        ensures
            match self@ {
                ValueView::Struct(ps) => found matches Some(m) && m@ == ps,
                _ => found is None,
            },
    {
        match self {
            Value::Struct(m) => {
                proof {
                    lemma_view_struct(*m);
                }
                Some(m)
            },
            _ => None,
        }
    }

    /// The integer, if the value is one.
    pub fn into_int(self) -> (found: Option<i64>)
        ensures
            found == (match self@ {
                ValueView::Int(i) => Some(i),
                _ => None,
            }),
    {
        match self {
            Value::Int(i) => Some(i),
            _ => None,
        }
    }

    /// The token of the floating-point number, if the value is one.
    pub fn into_float(self) -> (found: Option<String>)
        ensures
            match self@ {
                ValueView::Float(t) => found matches Some(s) && s@ == t,
                _ => found is None,
            },
    {
        match self {
            Value::Float(t) => Some(t),
            _ => None,
        }
    }

    /// The boolean, if the value is one.
    pub fn into_bool(self) -> (found: Option<bool>)
        ensures
            found == (match self@ {
                ValueView::Bool(b) => Some(b),
                _ => None,
            }),
    {
        match self {
            Value::Bool(b) => Some(b),
            _ => None,
        }
    }

    /// The text, if the value is a string.
    pub fn into_string(self) -> (found: Option<String>)
        ensures
            match self@ {
                ValueView::String(t) => found matches Some(s) && s@ == t,
                _ => found is None,
            },
    {
        match self {
            Value::String(s) => Some(s),
            _ => None,
        }
    }

    /// The values, if the value is a list.
    pub fn into_values(self) -> (found: Option<Vec<Value>>)
        ensures
            match self@ {
                ValueView::Values(vs) => found matches Some(list) && view_all(list@) == vs,
                _ => found is None,
            },
    {
        match self {
            Value::Values(vs) => {
                proof {
                    lemma_view_values(vs);
                }
                Some(vs)
            },
            _ => None,
        }
    }

    /// The mapping, if the value is one.
    pub fn into_struct(self) -> (found: Option<OrderedMap>)
        ensures
            match self@ {
                ValueView::Struct(ps) => found matches Some(m) && m@ == ps,
                _ => found is None,
            },
    {
        match self {
            Value::Struct(m) => {
                proof {
                    lemma_view_struct(m);
                }
                Some(m)
            },
            _ => None,
        }
    }
}

impl Default for Value {
    fn default() -> (v: Self)
        ensures
            v@ == ValueView::Unit,
    {
        Value::Unit
    }
}

impl Agpref {
    /// A document without a name, whose value is the unit value.
    pub fn new() -> (a: Self)
        ensures
            a@ == (AgprefView { name: Seq::empty(), values: ValueView::Unit }),
    {
        Agpref { name: String::new(), values: Value::Unit }
    }

    /// A document with the given name, whose value is the unit value.
    pub fn with_name(name: &str) -> (a: Self)
        ensures
            a@ == (AgprefView { name: name@, values: ValueView::Unit }),
    {
        Agpref { name: name.to_owned(), values: Value::Unit }
    }
}

impl Default for Agpref {
    fn default() -> (a: Self)
        ensures
            a@ == (AgprefView { name: Seq::empty(), values: ValueView::Unit }),
    {
        Agpref::new()
    }
}

impl Clone for Agpref {
    fn clone(&self) -> (res: Self)
        ensures
            res@ == self@,
    {
        Agpref { name: self.name.clone(), values: self.values.clone() }
    }
}

impl Clone for NamedList {
    fn clone(&self) -> (res: Self)
        ensures
            res@ == self@,
    {
        let mut out: Vec<Value> = Vec::new();
        let mut i: usize = 0;
        while i < self.values.len()
            invariant
                i <= self.values.len(),
                out@.len() == i,
                forall|j: int| 0 <= j < i ==> out@[j]@ == self.values@[j]@,
            decreases self.values.len() - i,
        {
            out.push(self.values[i].clone());
            i += 1;
        }
        let res = NamedList { name: self.name.clone(), values: out };
        assert(res@.values =~= self@.values);
        res
    }
}

impl Clone for OrderedMap {
    fn clone(&self) -> (res: Self)
        ensures
            res@ == self@,
    {
        let mut out: Vec<(String, Value)> = Vec::new();
        let mut i: usize = 0;
        while i < self.entries.len()
            invariant
                i <= self.entries.len(),
                out@.len() == i,
                forall|j: int|
                    0 <= j < i ==> out@[j].0@ == self.entries@[j].0@ && out@[j].1@
                        == self.entries@[j].1@,
            decreases self.entries.len() - i,
        {
            out.push((self.entries[i].0.clone(), self.entries[i].1.clone()));
            i += 1;
        }
        let res = OrderedMap { entries: out };
        assert(res@ =~= self@);
        res
    }
}

impl Clone for Value {
    #[verifier::loop_isolation(false)]
    fn clone(&self) -> (res: Self)
        ensures
            res@ == self@,
        decreases self,
    {
        match self {
            Value::Unit => Value::Unit,
            Value::Int(i) => Value::Int(*i),
            Value::Float(t) => Value::Float(t.clone()),
            Value::Bool(b) => Value::Bool(*b),
            Value::String(s) => Value::String(s.clone()),
            Value::Values(vs) => {
                let mut out: Vec<Value> = Vec::new();
                let mut i: usize = 0;
                while i < vs.len()
                    invariant
                        i <= vs.len(),
                        out@.len() == i,
                        forall|j: int| 0 <= j < i ==> out@[j]@ == vs@[j]@,
                    decreases vs.len() - i,
                {
                    proof {
                        vstd::std_specs::vec::axiom_vec_index_decreases(*vs, i as int);
                    }
                    out.push(vs[i].clone());
                    i += 1;
                }
                proof {
                    lemma_view_values(out);
                    lemma_view_values(*vs);
                    assert(view_all(out@) =~= view_all(vs@));
                }
                Value::Values(out)
            },
            Value::Struct(m) => {
                let mut out: Vec<(String, Value)> = Vec::new();
                let mut i: usize = 0;
                while i < m.entries.len()
                    invariant
                        i <= m.entries.len(),
                        out@.len() == i,
                        forall|j: int|
                            0 <= j < i ==> out@[j].0@ == m.entries@[j].0@ && out@[j].1@
                                == m.entries@[j].1@,
                    decreases m.entries.len() - i,
                {
                    proof {
                        vstd::std_specs::vec::axiom_vec_index_decreases(m.entries, i as int);
                    }
                    out.push((m.entries[i].0.clone(), m.entries[i].1.clone()));
                    i += 1;
                }
                let copy = OrderedMap { entries: out };
                proof {
                    lemma_view_struct(copy);
                    lemma_view_struct(*m);
                    assert(copy@ =~= m@);
                }
                Value::Struct(copy)
            },
        }
    }
}

} // verus!
