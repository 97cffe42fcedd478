use vstd::prelude::*;

verus! {

/// A scalar configuration value, as it appears on the right-hand side of a
/// `key = value` line of a configuration document.
pub enum Value {
    Bool(bool),
    Str(String),
}

/// The mathematical model of a `Value`: strings are sequences of characters.
#[verifier::ext_equal]
pub enum ValueModel {
    Bool(bool),
    Str(Seq<char>),
}

impl DeepView for Value {
    type V = ValueModel;

    open spec fn deep_view(&self) -> ValueModel {
        match self {
            Value::Bool(b) => ValueModel::Bool(*b),
            Value::Str(s) => ValueModel::Str(s@),
        }
    }
}

impl Clone for Value {
    fn clone(&self) -> (res: Self)
        ensures
            res == *self,
    {
        match self {
            Value::Bool(b) => Value::Bool(*b),
            Value::Str(s) => Value::Str(s.clone()),
        }
    }
}

/// One key/value pair of a configuration table.
pub struct Field {
    pub key: String,
    pub value: Value,
}

/// The mathematical model of a `Field`.
#[verifier::ext_equal]
pub struct FieldModel {
    pub key: Seq<char>,
    pub value: ValueModel,
}

impl DeepView for Field {
    type V = FieldModel;

    open spec fn deep_view(&self) -> FieldModel {
        FieldModel { key: self.key@, value: self.value.deep_view() }
    }
}

impl Clone for Field {
    fn clone(&self) -> (res: Self)
        ensures
            res == *self,
    {
        Field { key: self.key.clone(), value: self.value.clone() }
    }
}

/// A map-shaped configuration node: key/value pairs in document order.
pub type Table = Vec<Field>;

/// Whether some field of `t` carries the key `k`.
pub open spec fn table_has_key(t: Seq<FieldModel>, k: Seq<char>) -> bool {
    exists|i: int| 0 <= i < t.len() && t[i].key == k
}

/// Whether no two fields of `t` carry the same key.
pub open spec fn distinct_keys(t: Seq<FieldModel>) -> bool {
    forall|i: int, j: int| 0 <= i < j < t.len() ==> t[i].key != t[j].key
}

/// The position of the first field of `t` carrying the key `k`, if any.
pub open spec fn first_key_index(t: Seq<FieldModel>, k: Seq<char>) -> Option<int>
    decreases t.len(),
{
    if t.len() == 0 {
        None
    } else if t[0].key == k {
        Some(0)
    } else {
        match first_key_index(t.drop_first(), k) {
            None => None,
            Some(i) => Some(i + 1),
        }
    }
}

/// `first_key_index` finds exactly the first field carrying the key.
pub proof fn lemma_first_key_index(t: Seq<FieldModel>, k: Seq<char>)
    ensures
        match first_key_index(t, k) {
            Some(i) => 0 <= i < t.len() && t[i].key == k && (forall|j: int|
                0 <= j < i ==> t[j].key != k),
            None => forall|j: int| 0 <= j < t.len() ==> t[j].key != k,
        },
    decreases t.len(),
{
    if t.len() == 0 {
    } else if t[0].key == k {
    } else {
        lemma_first_key_index(t.drop_first(), k);
        assert(forall|j: int| 1 <= j < t.len() ==> t[j] == t.drop_first()[j - 1]);
    }
}

/// Bind `f.key` in `t` as a map insert would: overwrite the value in place
/// where the key is already bound, append the field otherwise.
pub open spec fn table_upsert(t: Seq<FieldModel>, f: FieldModel) -> Seq<FieldModel> {
    match first_key_index(t, f.key) {
        None => t.push(f),
        Some(i) => t.update(i, f),
    }
}

/// The position of the first field of `t` carrying the key `k`, if any.
pub fn table_find_key(t: &Vec<Field>, k: &String) -> (r: Option<usize>)
    ensures
        (match r {
            Some(p) => first_key_index(t.deep_view(), k@) == Some(p as int) && p < t.len(),
            None => first_key_index(t.deep_view(), k@) is None,
        }),
{
    let mut i: usize = 0;
    while i < t.len()
        invariant
            0 <= i <= t.len(),
            forall|m: int| 0 <= m < i ==> t.deep_view()[m].key != k@,
        decreases t.len() - i,
    {
        if t[i].key == *k {
            proof {
                assert(t.deep_view()[i as int].key == k@);
                lemma_first_key_index(t.deep_view(), k@);
                match first_key_index(t.deep_view(), k@) {
                    Some(p) => {
                        assert(!(p < i)) by {
                            if p < i {
                                assert(t.deep_view()[p].key != k@);
                            }
                        }
                        assert(!(p > i)) by {
                            if p > i {
                                assert(t.deep_view()[i as int].key != k@);
                            }
                        }
                    },
                    None => {
                        assert(t.deep_view()[i as int].key != k@);
                    },
                }
            }
            return Some(i);
        }
        i = i + 1;
    }
    proof {
        lemma_first_key_index(t.deep_view(), k@);
    }
    None
}

} // verus!
