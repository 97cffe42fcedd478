use vstd::prelude::*;
use vstd::string::StringExecFns;

use crate::component::{ComponentBuilder, Registry};
use crate::conditions::{static_entry_model, Condition, ConditionFactory};
use crate::value::{Field, FieldModel, Table, Value, ValueModel};
use crate::Event;

verus! {

/// The configuration shape of the `static` variant: exactly one field,
/// `value`, a boolean.
#[derive(Clone, Copy, Debug)]
pub struct StaticConfig {
    pub value: bool,
}

impl DeepView for StaticConfig {
    type V = bool;

    open spec fn deep_view(&self) -> bool {
        self.value
    }
}

/// The error text for a fragment field the shape does not declare.
pub open spec fn unknown_field_message(key: Seq<char>) -> Seq<char> {
    "unknown field `"@ + key + "`, expected `value`"@
}

/// The error text for a fragment lacking the required `value` field.
pub open spec fn missing_value_message() -> Seq<char> {
    "missing field `value`"@
}

/// The error text for a `value` field that is not a boolean.
pub open spec fn invalid_value_message() -> Seq<char> {
    "invalid type for field `value`, expected a boolean"@
}

/// The strict fragment decode of the `static` variant over models: fields
/// are walked in document order, any undeclared field is rejected by name,
/// and the required `value` field must be present and boolean.  A repeated
/// binding overwrites the earlier one, as in a map.
pub open spec fn static_config_rec(t: Seq<FieldModel>, seen: Option<bool>) -> Result<
    bool,
    Seq<char>,
>
    decreases t.len(),
{
    if t.len() == 0 {
        match seen {
            Some(b) => Ok(b),
            None => Err(missing_value_message()),
        }
    } else {
        let f = t[0];
        if f.key == "value"@ {
            match f.value {
                ValueModel::Bool(b) => static_config_rec(t.drop_first(), Some(b)),
                ValueModel::Str(_) => Err(invalid_value_message()),
            }
        } else {
            Err(unknown_field_message(f.key))
        }
    }
}

/// What decoding a fragment into a `StaticConfig` returns, at the level of
/// models.
pub open spec fn static_config_spec(t: Seq<FieldModel>) -> Result<bool, Seq<char>> {
    static_config_rec(t, None)
}

impl StaticConfig {
    /// Decode a fragment strictly: reject unknown fields by name, report the
    /// missing required field by name.
    pub fn from_table(t: &Table) -> (r: Result<StaticConfig, String>)
        ensures
            (match r {
                Ok(conf) => static_config_spec(t.deep_view()) == Result::<bool, Seq<char>>::Ok(
                    conf.deep_view(),
                ),
                Err(e) => static_config_spec(t.deep_view()) is Err && e@ == static_config_spec(
                    t.deep_view(),
                )->Err_0,
            }),
    {
        let value_key: String = "value".to_owned();
        let mut seen: Option<bool> = None;
        let mut i: usize = 0;
        proof {
            assert(t.deep_view().skip(0) =~= t.deep_view());
        }
        while i < t.len()
            invariant
                0 <= i <= t.len(),
                value_key@ == "value"@,
                static_config_rec(t.deep_view().skip(i as int), seen) == static_config_spec(
                    t.deep_view(),
                ),
            decreases t.len() - i,
        {
            let f = &t[i];
            proof {
                assert(t.deep_view().skip(i as int)[0] == t.deep_view()[i as int]);
                assert(t.deep_view().skip(i as int).drop_first() =~= t.deep_view().skip(i + 1));
            }
            if f.key == value_key {
                match &f.value {
                    Value::Bool(b) => {
                        seen = Some(*b);
                    },
                    Value::Str(_) => {
                        return Err(
                            "invalid type for field `value`, expected a boolean".to_owned(),
                        );
                    },
                }
            } else {
                let mut msg = "unknown field `".to_owned();
                msg.append(f.key.as_str());
                msg.append("`, expected `value`");
                proof {
                    assert(msg@ =~= unknown_field_message(f.key@));
                }
                return Err(msg);
            }
            i = i + 1;
        }
        proof {
            assert(t.deep_view().skip(t.deep_view().len() as int) =~= Seq::<FieldModel>::empty());
        }
        match seen {
            Some(b) => Ok(StaticConfig { value: b }),
            None => Err("missing field `value`".to_owned()),
        }
    }
}

/// The `static` condition: evaluation ignores its input and returns the
/// configured boolean.
pub struct Static {
    conf: StaticConfig,
}

impl DeepView for Static {
    type V = bool;

    closed spec fn deep_view(&self) -> bool {
        self.conf.value
    }
}

impl Static {
    /// Wrap a decoded configuration; construction always succeeds.
    pub fn new(conf: StaticConfig) -> (r: Static)
        ensures
            r.deep_view() == conf.deep_view(),
    {
        Static { conf }
    }
}

impl Condition for Static {
    open spec fn check_spec(&self, e: &Event) -> Result<bool, Seq<char>> {
        Ok(self.deep_view())
    }

    fn check(&self, _e: &Event) -> (r: Result<bool, String>) {
        Ok(self.conf.value)
    }
}

/// Correct construction: a static condition evaluates to its configured
/// boolean, and to nothing else, whatever input it is given.
pub proof fn lemma_static_check_constant(c: &Static, e1: &Event, e2: &Event)
    ensures
        c.check_spec(e1) == Result::<bool, Seq<char>>::Ok(c.deep_view()),
        c.check_spec(e1) == c.check_spec(e2),
{
}

/// Two static conditions with the same model evaluate alike on every
/// input: re-decoding a re-encoded configuration preserves evaluation
/// outcomes, not just the configuration's fields.
pub proof fn lemma_same_model_same_evaluation(c1: &Static, c2: &Static, e: &Event)
    requires
        c1.deep_view() == c2.deep_view(),
    ensures
        c1.check_spec(e) == c2.check_spec(e),
{
}

/// The model of the canonical default fragment of the `static` variant.
pub open spec fn static_default_model() -> Seq<FieldModel> {
    seq![FieldModel { key: "value"@, value: ValueModel::Bool(false) }]
}

/// The canonical default fragment of the `static` variant: `value = false`.
pub fn default_table() -> (r: Table)
    ensures
        r.deep_view() == static_default_model(),
{
    let mut t: Vec<Field> = Vec::new();
    t.push(Field { key: "value".to_owned(), value: Value::Bool(false) });
    proof {
        assert(t.deep_view() =~= static_default_model());
    }
    t
}

/// Register the `static` variant with a conditions registry.
pub fn register(r: &mut Registry<ConditionFactory>)
    ensures
        final(r).deep_view() == old(r).deep_view().push(static_entry_model()),
{
    let b = ComponentBuilder::new("static".to_owned(), ConditionFactory::Static);
    proof {
        assert(b.deep_view() =~= static_entry_model());
    }
    r.register(b);
}

} // verus!
