pub mod static_value;

use vstd::prelude::*;

use crate::component::{
    ComponentBuilder, ComponentBuilderModel, ComponentConfig, Factory, Registry,
};
use crate::value::{FieldModel, Table};
use crate::Event;

verus! {

/// The capability interface of the conditions family: evaluate against an
/// opaque input, returning a boolean or an error description.  Evaluation is
/// pure with respect to the instance's own configuration: `check` returns
/// what `check_spec` states, on every call.
pub trait Condition {
    /// What `check` returns, at the level of models.
    spec fn check_spec(&self, e: &Event) -> Result<bool, Seq<char>>;

    /// Evaluate this condition against `e`.
    fn check(&self, e: &Event) -> (r: Result<bool, String>)
        ensures
            (match r {
                Ok(b) => self.check_spec(e) == Result::<bool, Seq<char>>::Ok(b),
                Err(msg) => self.check_spec(e) is Err && msg@ == self.check_spec(e)->Err_0,
            }),
    ;
}

/// The factory of the conditions family: one value per variant.  A variant
/// added to the family gains a value here and a `register` call in
/// `registry`.
pub enum ConditionFactory {
    /// The `static` variant: a condition that always returns its configured
    /// boolean.
    Static,
}

impl Factory for ConditionFactory {
    type Component = static_value::Static;

    open spec fn from_value_spec(&self, t: Seq<FieldModel>) -> Result<bool, Seq<char>> {
        static_value::static_config_spec(t)
    }

    open spec fn default_value_spec(&self) -> Result<Seq<FieldModel>, Seq<char>> {
        Ok(static_value::static_default_model())
    }

    fn from_value(&self, t: &Table) -> (r: Result<static_value::Static, String>) {
        match static_value::StaticConfig::from_table(t) {
            Ok(conf) => Ok(static_value::Static::new(conf)),
            Err(e) => Err(e),
        }
    }

    fn default_value(&self) -> (r: Result<Table, String>) {
        Ok(static_value::default_table())
    }
}

/// A registry entry of the conditions family.
pub type ConditionDefinition = ComponentBuilder<ConditionFactory>;

/// A decoded configuration of the conditions family.
pub type ConditionConfig = ComponentConfig<ConditionFactory>;

/// The model of the one entry every conditions registry starts from.
pub open spec fn static_entry_model() -> ComponentBuilderModel<ConditionFactory> {
    ComponentBuilderModel { name: "static"@, factory: ConditionFactory::Static }
}

/// Build the registry of the conditions family, registering every known
/// variant in a fixed order, once, before any lookup.
pub fn registry() -> (r: Registry<ConditionFactory>)
    ensures
        r.deep_view() == seq![static_entry_model()],
{
    let mut r = Registry::new();
    static_value::register(&mut r);
    proof {
        assert(r.deep_view() =~= seq![static_entry_model()]);
    }
    r
}

} // verus!
