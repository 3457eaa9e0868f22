//! Declaring symbols.

use vstd::prelude::*;

use crate::context::reports::{is_real_redeclaration, ErrorLog, LogModel};
use crate::errors::ErrorModel;
use crate::locations::{lies_within, Location, Pinned, PinnedModel, SpanModel};
use crate::ordered::Ordered;
use crate::symbols::table::{SymbolTable, TableModel};

verus! {

/// The log after a symbol is declared where another one may be.
pub open spec fn declared(
    log: LogModel,
    name: PinnedModel<SpanModel>,
    existing: Option<PinnedModel<SpanModel>>,
) -> LogModel {
    match existing {
        Some(previous) => if is_real_redeclaration(previous, name) {
            log.with_error(ErrorModel::IllegalRedeclaration { previous, found: name.inner })
        } else {
            log
        },
        None => log,
    }
}

impl TableModel {
    /// Where the symbol that a name stands for in the current scope is
    /// declared.
    pub open spec fn local_declaration(self, name: Seq<char>) -> Option<PinnedModel<SpanModel>> {
        let names = self.scopes[self.current as int].symbols;
        if names.dom().contains(name) {
            Some(self.symbols[names[name] as int].declared_name)
        } else {
            None
        }
    }
}

/// Declares a symbol in the current scope, and reports one that is already
/// declared there.
pub fn declare_new_symbol(log: &mut ErrorLog, table: &mut SymbolTable, symbol: usize)
    requires
        old(table)@.wf(),
        symbol < old(table)@.symbols.len(),
    ensures
        final(table)@.wf(),
        ({
            let name = old(table)@.symbols[symbol as int].declared_name;
            &&& final(table)@ == old(table)@.declaring(name.inner.content, symbol)
            &&& final(log)@ == declared(
                old(log)@,
                name,
                old(table)@.local_declaration(name.inner.content),
            )
        }),
{
    let ghost before = table@;
    let name = table.symbol(symbol).declared_name.duplicate();
    let existing = table.declare_new_symbol(name.content(), symbol);
    match existing {
        Some(id) => {
            proof {
                assert(before.scopes[before.current as int].symbols.dom().contains(
                    name@.inner.content,
                ));
            }
            log.report_if_real_redeclaration(&name, Some(&table.symbol(id).declared_name));
        },
        None => {
            log.report_if_real_redeclaration(&name, None);
        },
    }
}

/// Declares a method in the current package, and reports one that is already
/// declared there.
pub fn declare_new_method_symbol(
    log: &mut ErrorLog,
    table: &mut SymbolTable,
    receiver_type: &str,
    symbol: usize,
)
    requires
        old(table)@.wf(),
        symbol < old(table)@.symbols.len(),
        old(table)@.package is Some,
        old(table)@.known(old(table)@.package->0) is Some,
    ensures
        final(table)@.wf(),
        ({
            let name = old(table)@.symbols[symbol as int].declared_name;
            let e = old(table)@.known(old(table)@.package->0)->0;
            &&& final(table)@ == old(table)@.declaring_method(
                receiver_type@,
                name.inner.content,
                symbol,
            )
            &&& final(log)@ == declared(
                old(log)@,
                name,
                if e.has(receiver_type@, name.inner.content) {
                    Some(
                        old(table)@.symbols[e.at(
                            receiver_type@,
                            name.inner.content,
                        ) as int].declared_name,
                    )
                } else {
                    None
                },
            )
        }),
{
    let ghost before = table@;
    let name = table.symbol(symbol).declared_name.duplicate();
    let existing = table.declare_new_method(receiver_type, name.content(), symbol);
    match existing {
        Some(id) => {
            proof {
                let path = before.package->0;
                assert(before.packages.dom().contains(path));
                let e = before.known(path)->0;
                assert(e.has(receiver_type@, name@.inner.content));
            }
            log.report_if_real_redeclaration(&name, Some(&table.symbol(id).declared_name));
        },
        None => {
            log.report_if_real_redeclaration(&name, None);
        },
    }
}

/// The regions in which control flow is split.
#[derive(Debug)]
pub struct SplitRegions {
    regions: Vec<Pinned<Location>>,
}

impl View for SplitRegions {
    type V = Seq<PinnedModel<Location>>;

    closed spec fn view(&self) -> Seq<PinnedModel<Location>> {
        self.regions@.map_values(|r: Pinned<Location>| r@)
    }
}

impl SplitRegions {
    /// No regions.
    pub fn new() -> (r: Self)
        ensures
            r@ == Seq::<PinnedModel<Location>>::empty(),
    {
        let r = SplitRegions { regions: Vec::new() };
        proof {
            assert(r@ =~= Seq::<PinnedModel<Location>>::empty());
        }
        r
    }

    /// Enters a region in which control flow is split.
    pub fn push_split_control_flow(&mut self, region: Pinned<Location>)
        ensures
            final(self)@ == old(self)@.push(region@),
    {
        let ghost before = self@;
        let ghost m = region@;
        self.regions.push(region);
        proof {
            assert(self@ =~= before.push(m));
        }
    }

    /// Leaves the innermost region.
    pub fn pop_split_control_flow(&mut self)
        ensures
            final(self)@ == if old(self)@.len() > 0 {
                old(self)@.drop_last()
            } else {
                old(self)@
            },
    {
        let ghost before = self@;
        let _region = self.regions.pop();
        proof {
            if before.len() > 0 {
                assert(self@ =~= before.drop_last());
            } else {
                assert(self@ =~= before);
            }
        }
    }

    /// Whether something is declared within one of the regions; none if there
    /// are none.
    pub fn was_declared_within(&self, declaration: &Pinned<Location>) -> (r: Option<bool>)
        ensures
            r is None <==> self@.len() == 0,
            r matches Some(within) ==> within == exists|i: int|
                0 <= i < self@.len() && lies_within(declaration@, #[trigger] self@[i]),
    {
        let n: usize = self.regions.len();
        proof {
            assert(self@.len() == n);
        }
        if n == 0 {
            return None;
        }
        let mut i: usize = 0;
        while i < n
            invariant
                i <= n,
                n == self.regions@.len(),
                n == self@.len(),
                n > 0,
                self@ == self.regions@.map_values(|r: Pinned<Location>| r@),
                forall|k: int| 0 <= k < i ==> !lies_within(declaration@, #[trigger] self@[k]),
            decreases n - i,
        {
            proof {
                assert(self@[i as int] == self.regions@[i as int]@);
            }
            if declaration.contained_in(&self.regions[i]) {
                return Some(true);
            }
            i = i + 1;
        }
        Some(false)
    }
}

} // verus!
