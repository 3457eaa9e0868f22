//! Values that stand for one or several.

use vstd::prelude::*;

use crate::locations::{Location, Pinned, PinnedModel};
use crate::values::{values_of, FormModel, KeyModel, PartKey, Value, ValueForm, ValueModel};

verus! {

impl ValueModel {
    /// The value where one is expected.
    pub open spec fn collapsed(self) -> ValueModel {
        if self.is_expandable() {
            self.read_at(Some(KeyModel::Index(0)), self.location)
        } else {
            self
        }
    }

    /// Whether the value can stand for so many.
    pub open spec fn expands_to(self, arity: nat) -> bool {
        self.form is Mobius || self.form is Expandable && self.parts.len() == arity
    }

    /// The values where so many are expected.
    pub open spec fn expanded(self, arity: nat) -> Seq<ValueModel> {
        Seq::new(
            arity,
            |i: int| self.read_at(Some(KeyModel::Index(i as usize)), self.location),
        )
    }

    /// A value that stands for one where one is expected, and for that and
    /// another one where two are.
    pub open spec fn paired(
        first: ValueModel,
        second: ValueModel,
        location: PinnedModel<Location>,
    ) -> ValueModel {
        ValueModel {
            key: KeyModel::Whole,
            form: FormModel::Expandable,
            own: None,
            location,
            declared_type: None,
            parts: seq![
                ValueModel { key: KeyModel::Index(0), ..first },
                ValueModel { key: KeyModel::Index(1), ..second },
            ],
        }
    }
}

impl Value {
    /// The value where one is expected.
    pub fn extract_collapsed_single(self) -> (r: Value)
        ensures
            r@ == self@.collapsed(),
    {
        if self.supports_overriding_expand_indices() {
            self.get_at_key(Some(&PartKey::Index(0)), &self.location)
        } else {
            self
        }
    }

    /// The values where so many are expected; none if the value cannot stand
    /// for so many.
    pub fn try_expand_to(&self, arity: usize) -> (r: Option<Vec<Value>>)
        ensures
            r is Some <==> self@.expands_to(arity as nat),
            r matches Some(v) ==> values_of(v@) == self@.expanded(arity as nat),
    {
        proof {
            self.lemma_parts();
        }
        let fits = match &self.form {
            ValueForm::Mobius => true,
            ValueForm::Expandable => self.parts.len() == arity,
            _ => false,
        };
        if !fits {
            return None;
        }
        let mut r: Vec<Value> = Vec::new();
        let mut i: usize = 0;
        while i < arity
            invariant
                i <= arity,
                r@.len() == i,
                forall|k: int|
                    0 <= k < i ==> (#[trigger] r@[k])@ == self@.read_at(
                        Some(KeyModel::Index(k as usize)),
                        self@.location,
                    ),
            decreases arity - i,
        {
            r.push(self.get_at_key(Some(&PartKey::Index(i)), &self.location));
            i = i + 1;
        }
        proof {
            assert(values_of(r@) =~= self@.expanded(arity as nat));
        }
        Some(r)
    }

    /// A value that stands for one where one is expected, and for that and
    /// another one where two are.
    pub fn pair(first: Value, second: Value, location: Pinned<Location>) -> (r: Value)
        ensures
            r@ == ValueModel::paired(first@, second@, location@),
    {
        let ghost a = first@;
        let ghost b = second@;
        let mut x = first;
        let mut y = second;
        proof {
            x.lemma_parts();
            y.lemma_parts();
        }
        x.key = PartKey::Index(0);
        y.key = PartKey::Index(1);
        proof {
            x.lemma_parts();
            y.lemma_parts();
            assert(x@ =~= (ValueModel { key: KeyModel::Index(0), ..a }));
            assert(y@ =~= (ValueModel { key: KeyModel::Index(1), ..b }));
        }
        let ghost xm = x@;
        let ghost ym = y@;
        let mut parts: Vec<Value> = Vec::new();
        parts.push(x);
        parts.push(y);
        proof {
            assert(values_of(parts@) =~= seq![xm, ym]);
        }
        Value::new(ValueForm::Expandable, None, location, None, parts)
    }
}

} // verus!
