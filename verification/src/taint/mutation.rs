//! Giving symbols other values.

use vstd::prelude::*;

use crate::context::branches::copy_trace;
use crate::context::{AnalysisContext, ContextModel};
use crate::errors::{AnalysisErrorKind, ErrorModel};
use crate::labels::backtraces::{folded, listed, trace_of, trace_of_ref, traces_of, traces_of_refs,
    LabelBacktrace, LabelBacktraceKind, Trace};
use crate::labels::tags::TagModel;
use crate::labels::Label;
use crate::locations::{Location, Pinned, PinnedModel, Span, SpanModel};
use crate::ordered::Ordered;
use crate::policy::targets::SimpleConstValue;
use crate::symbols::table::{SymbolTable, TableModel};
use crate::symbols::{const_of, SymbolModel};
use crate::values::{carried, merged, part_index, relieved, FormModel, KeyModel, PartKey, Value,
    ValueForm, ValueModel};

verus! {

/// One step from a value to a part of it.
#[derive(Debug)]
pub struct PathStep {
    /// What the value must be made of.
    pub form: ValueForm,
    /// Under what the part is found, if that is known.
    pub key: Option<PartKey>,
    /// What that carries.
    pub key_backtrace: Option<LabelBacktrace>,
}

/// What a [`PathStep`] stands for.
#[verifier::ext_equal]
pub struct StepModel {
    pub form: FormModel,
    pub key: Option<KeyModel>,
    pub key_flow: Option<Trace>,
}

impl View for PathStep {
    type V = StepModel;

    open spec fn view(&self) -> StepModel {
        StepModel {
            form: self.form@,
            key: match self.key {
                Some(k) => Some(k@),
                None => None,
            },
            key_flow: trace_of(self.key_backtrace),
        }
    }
}

/// What a list of steps stands for.
pub open spec fn steps_of(s: Seq<PathStep>) -> Seq<StepModel> {
    s.map_values(|p: PathStep| p@)
}

/// Something that can be assigned to: a symbol, or a part of its value.
#[derive(Debug)]
pub struct LeftValue {
    /// The position of the symbol.
    pub symbol: usize,
    /// Its name, where it is assigned to.
    pub name: Span,
    /// The steps to the part.
    pub path: Vec<PathStep>,
}

/// What a [`LeftValue`] stands for.
#[verifier::ext_equal]
pub struct LeftModel {
    pub symbol: usize,
    pub name: SpanModel,
    pub path: Seq<StepModel>,
}

impl View for LeftValue {
    type V = LeftModel;

    open spec fn view(&self) -> LeftModel {
        LeftModel { symbol: self.symbol, name: self.name@, path: steps_of(self.path@) }
    }
}

impl ValueModel {
    /// The part under a key, as it is in the value.
    pub open spec fn part_at(
        self,
        key: Option<KeyModel>,
        location: PinnedModel<Location>,
    ) -> ValueModel {
        match key {
            Some(k) => {
                let p = part_index(self.parts, k);
                let q = part_index(self.parts, KeyModel::Others);
                if p < self.parts.len() {
                    ValueModel { key: KeyModel::Whole, ..self.parts[p] }
                } else if q < self.parts.len() {
                    ValueModel { key: KeyModel::Whole, ..self.parts[q] }
                } else {
                    ValueModel::simple(None, location)
                }
            },
            None => ValueModel::simple(self.others(), location),
        }
    }

    /// Whether the steps of a path can be taken from the value.
    pub open spec fn has_path(self, path: Seq<StepModel>, location: PinnedModel<Location>) -> bool
        decreases path.len(),
    {
        path.len() == 0 || self.form.can_become(path[0].form) && self.part_at(
            path[0].key,
            location,
        ).has_path(path.skip(1), location)
    }

    /// What is read at the end of a path.
    pub open spec fn read_along(
        self,
        path: Seq<StepModel>,
        location: PinnedModel<Location>,
    ) -> ValueModel
        decreases path.len(),
    {
        if path.len() == 0 {
            self
        } else {
            self.read_at(path[0].key, location).read_along(path.skip(1), location)
        }
    }

    /// The value once something is written at the end of a path.
    pub open spec fn written_along(
        self,
        path: Seq<StepModel>,
        v: ValueModel,
        location: PinnedModel<Location>,
    ) -> ValueModel
        decreases path.len(),
    {
        if path.len() == 0 {
            v
        } else {
            self.written_at(
                path[0].form,
                path[0].key,
                self.part_at(path[0].key, location).written_along(path.skip(1), v, location),
                path[0].key_flow,
                location,
            )
        }
    }
}

impl Value {
    fn get_part(&self, key: &Option<PartKey>, location: &Pinned<Location>) -> (r: Value)
        ensures
            r@ == self@.part_at(
                match key {
                    Some(k) => Some(k@),
                    None => None,
                },
                location@,
            ),
    {
        proof {
            self.lemma_parts();
        }
        let others: usize = self.find_part(&PartKey::Others);
        match key {
            Some(k) => {
                let found: usize = self.find_part(k);
                let at: usize = if found < self.parts.len() {
                    found
                } else {
                    others
                };
                if at < self.parts.len() {
                    let mut part = self.parts[at].clone();
                    proof {
                        part.lemma_parts();
                    }
                    part.key = PartKey::Whole;
                    proof {
                        part.lemma_parts();
                    }
                    part
                } else {
                    Value::from_backtrace_or_bottom_at(None, location)
                }
            },
            None => {
                let flow = if others < self.parts.len() {
                    self.parts[others].backtrace()
                } else {
                    None
                };
                Value::from_backtrace_or_bottom_at(flow, location)
            },
        }
    }

    /// Whether the steps of a path, from one of them on, can be taken from the
    /// value.
    pub fn admits_path(
        &self,
        path: &Vec<PathStep>,
        from: usize,
        location: &Pinned<Location>,
    ) -> (r: bool)
        requires
            from <= path@.len(),
        ensures
            r == self@.has_path(steps_of(path@).skip(from as int), location@),
        decreases path@.len() - from,
    {
        let ghost left = steps_of(path@).skip(from as int);
        if from == path.len() {
            return true;
        }
        proof {
            assert(left[0] == path@[from as int]@);
            assert(left.skip(1) =~= steps_of(path@).skip(from + 1));
        }
        self.form.can_become(&path[from].form) && self.get_part(
            &path[from].key,
            location,
        ).admits_path(path, from + 1, location)
    }

    /// What is read at the end of a path, from one of its steps on.
    pub fn get_along(
        &self,
        path: &Vec<PathStep>,
        from: usize,
        location: &Pinned<Location>,
    ) -> (r: Value)
        requires
            from <= path@.len(),
        ensures
            r@ == self@.read_along(steps_of(path@).skip(from as int), location@),
        decreases path@.len() - from,
    {
        let ghost left = steps_of(path@).skip(from as int);
        if from == path.len() {
            return self.clone();
        }
        proof {
            assert(left[0] == path@[from as int]@);
            assert(left.skip(1) =~= steps_of(path@).skip(from + 1));
        }
        self.get_at_key(path[from].key.as_ref(), location).get_along(path, from + 1, location)
    }

    /// Writes something at the end of a path, from one of its steps on.
    pub fn set_along(
        &mut self,
        path: &Vec<PathStep>,
        from: usize,
        value: Value,
        location: &Pinned<Location>,
    )
        requires
            from <= path@.len(),
        ensures
            final(self)@ == old(self)@.written_along(
                steps_of(path@).skip(from as int),
                value@,
                location@,
            ),
        decreases path@.len() - from,
    {
        let ghost left = steps_of(path@).skip(from as int);
        if from == path.len() {
            *self = value;
            return;
        }
        proof {
            assert(left[0] == path@[from as int]@);
            assert(left.skip(1) =~= steps_of(path@).skip(from + 1));
        }
        let mut part = self.get_part(&path[from].key, location);
        part.set_along(path, from + 1, value, location);
        let key = match &path[from].key {
            Some(k) => Some(k.clone()),
            None => None,
        };
        self.set_at_key(
            path[from].form.clone(),
            key,
            part,
            copy_trace(&path[from].key_backtrace),
            location,
        );
    }
}

/// What an assignment writes.
#[verifier::ext_equal]
pub struct AssignmentModel {
    /// How the assignment shows in backtraces.
    pub kind: LabelBacktraceKind,
    /// The value that is assigned.
    pub rhs: ValueModel,
    /// What that is known to be.
    pub known_const: Option<Seq<char>>,
    /// Whether the old value is lost.
    pub simple: bool,
    /// What an annotation adds.
    pub explicit: Option<Trace>,
    /// What an annotation takes away.
    pub subtract: Set<TagModel>,
    /// Where it stands.
    pub location: Location,
    /// Whether the symbol is declared outside of the branches that are being
    /// visited.
    pub outside_split: bool,
}

/// An assignment.
#[derive(Debug)]
pub struct Assignment<'a> {
    /// How the assignment shows in backtraces.
    pub kind: LabelBacktraceKind,
    /// The value that is assigned.
    pub rhs: Value,
    /// What that is known to be.
    pub known_const: Option<SimpleConstValue>,
    /// Whether the old value is lost.
    pub simple: bool,
    /// What an annotation adds.
    pub explicit: Option<&'a LabelBacktrace>,
    /// What an annotation takes away.
    pub subtract: &'a Label,
    /// Where it stands.
    pub location: Location,
    /// Whether the symbol is declared outside of the branches that are being
    /// visited.
    pub outside_split: bool,
}

impl<'a> View for Assignment<'a> {
    type V = AssignmentModel;

    open spec fn view(&self) -> AssignmentModel {
        AssignmentModel {
            kind: self.kind,
            rhs: self.rhs@,
            known_const: const_of(self.known_const),
            simple: self.simple,
            explicit: trace_of_ref(self.explicit),
            subtract: self.subtract@,
            location: self.location,
            outside_split: self.outside_split,
        }
    }
}

impl AssignmentModel {
    /// The value that is written in place of another one. It also carries what
    /// decides whether the assignment is made.
    pub open spec fn written(
        self,
        current: ValueModel,
        name: Seq<char>,
        branch: Option<Trace>,
        at: PinnedModel<Location>,
    ) -> ValueModel {
        let base = if self.simple {
            self.rhs
        } else {
            ValueModel::simple(
                folded(
                    listed(carried(current)) + listed(carried(self.rhs)),
                    LabelBacktraceKind::Expression,
                    None,
                    at,
                ),
                at,
            )
        };
        relieved(
            (ValueModel { location: at, ..base }).nesting(
                self.kind,
                Some(name),
                at,
                listed(self.explicit) + listed(branch),
            ),
            self.subtract,
        )
    }

    /// The symbol after the assignment. One that is declared outside of the
    /// branches that are being visited may also keep its value.
    pub open spec fn applied(
        self,
        s: SymbolModel,
        left: LeftModel,
        branch: Option<Trace>,
        at: PinnedModel<Location>,
    ) -> SymbolModel {
        let now = s.value.written_along(
            left.path,
            self.written(s.value.read_along(left.path, at), left.name.content, branch, at),
            at,
        );
        if self.outside_split {
            SymbolModel { value: merged(s.value, now, self.kind, at), known_const: None, ..s }
        } else {
            SymbolModel {
                value: now,
                known_const: if self.simple && left.path.len() == 0 {
                    self.known_const
                } else {
                    None
                },
                ..s
            }
        }
    }

    /// The state after the assignment.
    pub open spec fn reported(self, ctx: ContextModel, t: TableModel, left: LeftModel) -> ContextModel {
        let s = t.symbols[left.symbol as int];
        let at = PinnedModel { file: ctx.log.file->0, inner: self.location };
        if !s.mutable {
            ContextModel {
                log: ctx.log.with_error(ErrorModel::ImmutableLeftValue { symbol: left.name }),
                ..ctx
            }
        } else if !s.value.has_path(left.path, at) {
            ContextModel {
                log: ctx.log.with_error(ErrorModel::InvalidLeftValue { location: self.location }),
                ..ctx
            }
        } else {
            ctx
        }
    }

    /// The table after the assignment.
    pub open spec fn assigned(self, ctx: ContextModel, t: TableModel, left: LeftModel) -> TableModel {
        let s = t.symbols[left.symbol as int];
        let at = PinnedModel { file: ctx.log.file->0, inner: self.location };
        if !s.mutable || !s.value.has_path(left.path, at) {
            t
        } else {
            TableModel {
                symbols: t.symbols.update(
                    left.symbol as int,
                    self.applied(s, left, ctx.branches.current(), at),
                ),
                ..t
            }
        }
    }
}

impl LeftValue {
    /// Makes an assignment. A constant, or something that has no such part, is
    /// reported and keeps its value.
    pub fn assign(
        &self,
        ctx: &mut AnalysisContext,
        table: &mut SymbolTable,
        assignment: Assignment<'_>,
    )
        requires
            old(ctx).wf(),
            old(table)@.wf(),
            old(ctx)@.log.file is Some,
            self.symbol < old(table)@.symbols.len(),
            assignment.subtract.wf(),
        ensures
            final(ctx).wf(),
            final(table)@.wf(),
            final(ctx)@ == assignment@.reported(old(ctx)@, old(table)@, self@),
            final(table)@ == assignment@.assigned(old(ctx)@, old(table)@, self@),
    {
        let ghost start = ctx@;
        let ghost t = table@;
        let ghost a = assignment@;
        let at = ctx.log.pin(assignment.location);
        proof {
            assert(steps_of(self.path@).skip(0) =~= steps_of(self.path@));
        }
        if !table.symbol(self.symbol).mutable {
            ctx.log.report_error(
                AnalysisErrorKind::ImmutableLeftValue { symbol: self.name.duplicate() },
            );
            proof {
                assert(ctx@ =~= a.reported(start, t, self@));
            }
            return;
        }
        if !table.symbol(self.symbol).value.admits_path(&self.path, 0, &at) {
            ctx.log.report_error(
                AnalysisErrorKind::InvalidLeftValue { location: assignment.location },
            );
            proof {
                assert(ctx@ =~= a.reported(start, t, self@));
            }
            return;
        }
        let old_value = table.symbol(self.symbol).value.clone();
        let mut written = if assignment.simple {
            assignment.rhs
        } else {
            let current = old_value.get_along(&self.path, 0, &at);
            let before = current.backtrace();
            let more = assignment.rhs.backtrace();
            let mut children: Vec<&LabelBacktrace> = Vec::new();
            if let Some(b) = &before {
                children.push(b);
            }
            if let Some(b) = &more {
                children.push(b);
            }
            proof {
                assert(traces_of_refs(children@) =~= listed(trace_of(before)) + listed(
                    trace_of(more),
                ));
            }
            let all = LabelBacktrace::fold(
                &children,
                LabelBacktraceKind::Expression,
                None,
                at.duplicate(),
            );
            Value::from_backtrace_or_bottom_at(all, &at)
        };
        written.set_location(at.duplicate());
        let mut extra: Vec<LabelBacktrace> = Vec::new();
        if let Some(b) = assignment.explicit {
            extra.push(b.clone());
        }
        if let Some(b) = ctx.branches.branch_backtrace() {
            extra.push(b.clone());
        }
        proof {
            assert(traces_of(extra@) =~= listed(a.explicit) + listed(start.branches.current()));
        }
        written.nest_backtrace(
            assignment.kind,
            Some(self.name.content().to_owned()),
            at.duplicate(),
            &extra,
        );
        written.subtract_label(assignment.subtract);
        proof {
            assert(written@ == a.written(
                old_value@.read_along(self@.path, at@),
                self@.name.content,
                start.branches.current(),
                at@,
            ));
        }
        let mut now = old_value.clone();
        now.set_along(&self.path, 0, written, &at);
        if assignment.outside_split {
            let both = old_value.merge_with(&now, assignment.kind, &at);
            table.set_value(self.symbol, both, None);
        } else if assignment.simple && self.path.len() == 0 {
            table.set_value(self.symbol, now, assignment.known_const);
        } else {
            table.set_value(self.symbol, now, None);
        }
    }
}

} // verus!
