use std::sync::Arc;
use vstd::prelude::*;
use vstd::string::StringExecFns;

use crate::cache::CachedData;
use crate::protocol::CommandResponse;
use crate::protocol::CxxrtlCommand;
use crate::protocol::CxxrtlItem;
use crate::protocol::CxxrtlSimulationStatus;
use crate::protocol::CxxrtlTimestamp;
use crate::protocol::SimulationStatusType;
use crate::query::items_view;
use crate::query::item_width;
use crate::query::vars_view;
use crate::query::QueryResult;
use crate::query::VarView;
use crate::refs::child_scopes_of;
use crate::refs::children_of;
use crate::refs::join_with;
use crate::refs::key_of_var;
use crate::refs::scopes_view;
use crate::refs::ScopeRef;
use crate::refs::VariableRef;
use crate::refs::SEPARATOR;
use crate::state::distinct;
use crate::state::running_status;
use crate::state::module_cell;
use crate::state::CxxrtlData;
use crate::state::ItemTable;
use crate::state::PendingOp;
use crate::state::Request;

verus! {

/// How far, in femtoseconds, an unpaused simulation is asked to run.
pub const RUN_QUANTUM_FS: u128 = 100_000_000;

/// `new` is `old` with one more request at its end.
pub open spec fn sends_one(old: Seq<Request>, new: Seq<Request>) -> bool {
    new.len() == old.len() + 1 && new.drop_last() == old
}

/// The paths of the scopes a scope cell holds; none when it holds nothing.
pub open spec fn scopes_or_empty(v: Option<Arc<Vec<ScopeRef>>>) -> Seq<Seq<Seq<char>>> {
    match v {
        Some(s) => scopes_view(s@),
        None => Seq::empty(),
    }
}

/// `new` is `old` after a lookup of the scope list: its cell was looked up, and the
/// listing was requested if the cell was absent.
pub open spec fn looked_up_scopes(old: CxxrtlContainer, new: CxxrtlContainer) -> bool {
    &&& new.data == (CxxrtlData {
        scopes_cache: old.data.scopes_cache.after_fetch(),
        ..old.data
    })
    &&& if old.data.scopes_cache.needs_request() {
        &&& sends_one(old.outbox@, new.outbox@)
        &&& new.outbox@.last().command is ListScopes
        &&& new.outbox@.last().command->ListScopes_scope is None
        &&& new.outbox@.last().op is Scopes
    } else {
        new.outbox@ == old.outbox@
    }
}

/// `new` is `old` after a lookup of the item table: its cell was looked up, and the full
/// listing was requested if the cell was absent.
pub open spec fn looked_up_items(old: CxxrtlContainer, new: CxxrtlContainer) -> bool {
    &&& new.data == (CxxrtlData {
        all_items_cache: old.data.all_items_cache.after_fetch(),
        ..old.data
    })
    &&& if old.data.all_items_cache.needs_request() {
        &&& sends_one(old.outbox@, new.outbox@)
        &&& new.outbox@.last().command is ListItems
        &&& new.outbox@.last().command->ListItems_scope is None
        &&& new.outbox@.last().op is AllItems
    } else {
        new.outbox@ == old.outbox@
    }
}

/// `new` is `old` after a lookup of the simulation status: its cell was looked up, and a
/// status poll was requested if the cell was absent.
pub open spec fn looked_up_status(old: CxxrtlContainer, new: CxxrtlContainer) -> bool {
    &&& new.data == (CxxrtlData {
        simulation_status: old.data.simulation_status.after_fetch(),
        ..old.data
    })
    &&& if old.data.simulation_status.needs_request() {
        &&& sends_one(old.outbox@, new.outbox@)
        &&& new.outbox@.last().command is GetSimulationStatus
        &&& new.outbox@.last().op is Status
    } else {
        new.outbox@ == old.outbox@
    }
}

/// `new` is `old` after a lookup of the items of `scope`: that scope's cell was looked up,
/// no other cell changed, and the scope's listing was requested if its cell was absent.
pub open spec fn looked_up_module(
    old: CxxrtlContainer,
    new: CxxrtlContainer,
    scope: Seq<Seq<char>>,
) -> bool {
    let cell = module_cell(old.data.module_item_cache@, scope);
    &&& new.data == (CxxrtlData { module_item_cache: new.data.module_item_cache, ..old.data })
    &&& module_cell(new.data.module_item_cache@, scope) == cell.after_fetch()
    &&& forall|p: Seq<Seq<char>>|
        p != scope ==> #[trigger] module_cell(new.data.module_item_cache@, p) == module_cell(
            old.data.module_item_cache@,
            p,
        )
    &&& if cell.needs_request() {
        &&& sends_one(old.outbox@, new.outbox@)
        &&& new.outbox@.last().command is ListItems
        &&& new.outbox@.last().command->ListItems_scope is Some
        &&& new.outbox@.last().command->ListItems_scope->0@ == join_with(scope, SEPARATOR)
        &&& new.outbox@.last().op is ModuleItems
        &&& new.outbox@.last().op->ModuleItems_0@ == scope
    } else {
        new.outbox@ == old.outbox@
    }
}

/// The client side of a simulator connection: answers queries from what is cached, and
/// queues a request for what is missing. The queued requests are sent by whoever drives
/// the connection, which hands each answer back to `apply_response`.
pub struct CxxrtlContainer {
    pub data: CxxrtlData,
    pub outbox: Vec<Request>,
}

impl CxxrtlContainer {
    pub open spec fn wf(&self) -> bool {
        self.data.wf()
    }

    /// A container with nothing cached and nothing queued.
    pub fn new() -> (r: CxxrtlContainer)
        ensures
            r.wf(),
            r.outbox@.len() == 0,
            r.data.is_initial(),
    {
        CxxrtlContainer { data: CxxrtlData::new(), outbox: Vec::new() }
    }

    /// Queues `command`, whose answer `op` will apply.
    fn run_command(&mut self, command: CxxrtlCommand, op: PendingOp)
        ensures
            final(self).outbox@ == old(self).outbox@.push(Request { command, op }),
            final(self).data == old(self).data,
    {
        self.outbox.push(Request { command, op });
    }

    /// Hands out the queued requests, oldest first, and leaves none queued.
    pub fn take_requests(&mut self) -> (r: Vec<Request>)
        ensures
            r@ == old(self).outbox@,
            final(self).outbox@.len() == 0,
            final(self).data == old(self).data,
    {
        let mut out: Vec<Request> = Vec::new();
        std::mem::swap(&mut out, &mut self.outbox);
        out
    }

    /// Whether a redraw was asked for since the last call.
    pub fn take_redraw_request(&mut self) -> (r: bool)
        ensures
            r == old(self).data.redraw_requested,
            !final(self).data.redraw_requested,
            final(self).outbox == old(self).outbox,
            final(self).data == (CxxrtlData { redraw_requested: false, ..old(self).data }),
    {
        let r = self.data.redraw_requested;
        self.data.redraw_requested = false;
        r
    }

    /// Applies the answer to the oldest outstanding request; see `CxxrtlData::apply_response`.
    pub fn apply_response(&mut self, op: PendingOp, response: CommandResponse) -> (matched: bool)
        requires
            old(self).wf(),
        ensures
            final(self).wf(),
            final(self).outbox == old(self).outbox,
            matched == crate::state::response_matches(op, response),
            !matched ==> final(self).data == old(self).data,
            matched ==> crate::state::applied(old(self).data, op, response, final(self).data),
    {
        self.data.apply_response(op, response)
    }

    /// The scope list, looked up in its cache; on a miss the listing is requested.
    fn get_scopes(&mut self) -> (r: Option<Arc<Vec<ScopeRef>>>)
        ensures
            r == old(self).data.scopes_cache.value(),
            looked_up_scopes(*old(self), *final(self)),
    {
        if self.data.scopes_cache.is_uncached() {
            self.run_command(CxxrtlCommand::ListScopes { scope: None }, PendingOp::Scopes);
            proof {
                lemma_push_sends_one(old(self).outbox@, self.outbox@);
            }
        }
        self.data.scopes_cache.fetch_if_needed(|| {})
    }

    /// All known scopes.
    pub fn modules(&mut self) -> (r: Vec<ScopeRef>)
        requires
            old(self).wf(),
        ensures
            scopes_view(r@) == scopes_or_empty(old(self).data.scopes_cache.value()),
            distinct(scopes_view(r@)),
            looked_up_scopes(*old(self), *final(self)),
    {
        match self.get_scopes() {
            Some(scopes) => copy_scopes(&scopes),
            None => {
                let r: Vec<ScopeRef> = Vec::new();
                proof {
                    assert(scopes_view(r@) =~= Seq::<Seq<Seq<char>>>::empty());
                }
                r
            },
        }
    }

    /// The root scope, which always exists; asking also fetches the scope list.
    pub fn root_modules(&mut self) -> (r: Vec<ScopeRef>)
        ensures
            scopes_view(r@) == seq![Seq::<Seq<char>>::empty()],
            looked_up_scopes(*old(self), *final(self)),
    {
        let _ = self.get_scopes();
        let r = vec![ScopeRef::root()];
        proof {
            assert(scopes_view(r@) =~= seq![Seq::<Seq<char>>::empty()]);
        }
        r
    }

    /// Whether `module` is among the known scopes.
    pub fn module_exists(&mut self, module: &ScopeRef) -> (r: bool)
        ensures
            r == scopes_or_empty(old(self).data.scopes_cache.value()).contains(module@),
            looked_up_scopes(*old(self), *final(self)),
    {
        match self.get_scopes() {
            Some(scopes) => contains_scope(&scopes, module),
            None => false,
        }
    }

    /// The known scopes directly below `parent`.
    pub fn child_scopes(&mut self, parent: &ScopeRef) -> (r: Vec<ScopeRef>)
        requires
            old(self).wf(),
        ensures
            distinct(scopes_view(r@)),
            scopes_view(r@) == children_of(
                scopes_or_empty(old(self).data.scopes_cache.value()),
                parent@,
            ),
            looked_up_scopes(*old(self), *final(self)),
    {
        match self.get_scopes() {
            Some(scopes) => child_scopes_of(&scopes, parent),
            None => {
                let empty: Vec<ScopeRef> = Vec::new();
                proof {
                    assert(scopes_view(empty@) =~= Seq::<Seq<Seq<char>>>::empty());
                }
                child_scopes_of(&empty, parent)
            },
        }
    }

    /// The full item table, looked up in its cache; on a miss the listing is requested.
    fn fetch_all_items(&mut self) -> (r: Option<Arc<ItemTable>>)
        ensures
            r == old(self).data.all_items_cache.value(),
            looked_up_items(*old(self), *final(self)),
    {
        if self.data.all_items_cache.is_uncached() {
            self.run_command(CxxrtlCommand::ListItems { scope: None }, PendingOp::AllItems);
            proof {
                lemma_push_sends_one(old(self).outbox@, self.outbox@);
            }
        }
        self.data.all_items_cache.fetch_if_needed(|| {})
    }

    /// What is known of `var`. This fetches the whole item table, so that many lookups
    /// share one request.
    fn fetch_item(&mut self, var: &VariableRef) -> (r: Option<CxxrtlItem>)
        ensures
            r == match old(self).data.all_items_cache.value() {
                Some(t) => match item_width(items_view(t@), var@) {
                    Some(w) => Some(CxxrtlItem { width: w }),
                    None => None,
                },
                None => None,
            },
            looked_up_items(*old(self), *final(self)),
    {
        match self.fetch_all_items() {
            Some(table) => match crate::query::find_item_width(&table, var) {
                Some(w) => Some(CxxrtlItem { width: w }),
                None => None,
            },
            None => None,
        }
    }

    /// The metadata of `variable`; its width is unknown until the item table has arrived.
    pub fn variable_meta(&mut self, variable: &VariableRef) -> (r: VariableMeta)
        ensures
            r.var@ == variable@,
            r.num_bits == match old(self).data.all_items_cache.value() {
                Some(t) => item_width(items_view(t@), variable@),
                None => None,
            },
            looked_up_items(*old(self), *final(self)),
    {
        let item = self.fetch_item(variable);
        let num_bits = match item {
            Some(i) => Some(i.width),
            None => None,
        };
        VariableMeta { var: variable.copy(), num_bits }
    }

    /// The items of one scope, looked up in that scope's cache; on a miss the scope's
    /// listing is requested.
    fn fetch_items_in_module(&mut self, scope: &ScopeRef) -> (r: Option<Arc<ItemTable>>)
        requires
            old(self).wf(),
        ensures
            final(self).wf(),
            r == module_cell(old(self).data.module_item_cache@, scope@).value(),
            looked_up_module(*old(self), *final(self), scope@),
    {
        let mut cell = match self.data.find_module(scope) {
            Some(i) => self.data.module_item_cache[i].1.share(),
            None => CachedData::empty(),
        };
        if cell.is_uncached() {
            self.run_command(
                CxxrtlCommand::ListItems { scope: Some(scope.cxxrtl_repr()) },
                PendingOp::ModuleItems(scope.copy()),
            );
            proof {
                lemma_push_sends_one(old(self).outbox@, self.outbox@);
            }
        }
        let r = cell.fetch_if_needed(|| {});
        self.data.set_module_cell(scope, cell);
        r
    }

    /// The variables of `module`; none until its listing has arrived.
    pub fn variables_in_module(&mut self, module: &ScopeRef) -> (r: Vec<VariableRef>)
        requires
            old(self).wf(),
        ensures
            final(self).wf(),
            vars_view(r@) == match module_cell(old(self).data.module_item_cache@, module@).value() {
                Some(t) => items_view(t@).map_values(|e: (VarView, u32)| e.0),
                None => Seq::empty(),
            },
            looked_up_module(*old(self), *final(self), module@),
    {
        match self.fetch_items_in_module(module) {
            Some(t) => table_variables(&t),
            None => {
                let r: Vec<VariableRef> = Vec::new();
                proof {
                    assert(vars_view(r@) =~= Seq::<VarView>::empty());
                }
                r
            },
        }
    }

    /// Whether `module` has no variables; true until its listing has arrived.
    pub fn no_variables_in_module(&mut self, module: &ScopeRef) -> (r: bool)
        requires
            old(self).wf(),
        ensures
            final(self).wf(),
            r == match module_cell(old(self).data.module_item_cache@, module@).value() {
                Some(t) => t@.len() == 0,
                None => true,
            },
            looked_up_module(*old(self), *final(self), module@),
    {
        match self.fetch_items_in_module(module) {
            Some(t) => t.len() == 0,
            None => true,
        }
    }

    /// The simulation status, looked up in its cache; on a miss a status poll is requested.
    fn raw_simulation_status(&mut self) -> (r: Option<CxxrtlSimulationStatus>)
        ensures
            r == match old(self).data.simulation_status.value() {
                Some(s) => Some(*s),
                None => None,
            },
            looked_up_status(*old(self), *final(self)),
    {
        if self.data.simulation_status.is_uncached() {
            self.run_command(CxxrtlCommand::GetSimulationStatus, PendingOp::Status);
            proof {
                lemma_push_sends_one(old(self).outbox@, self.outbox@);
            }
        }
        match self.data.simulation_status.fetch_if_needed(|| {}) {
            Some(s) => Some(*s),
            None => None,
        }
    }

    /// Whether the simulation runs, is paused or has finished, as far as is known.
    pub fn simulation_status(&mut self) -> (r: Option<SimulationStatusType>)
        ensures
            r == match old(self).data.simulation_status.value() {
                Some(s) => Some(s.status),
                None => None,
            },
            looked_up_status(*old(self), *final(self)),
    {
        match self.raw_simulation_status() {
            Some(s) => Some(s.status),
            None => None,
        }
    }

    /// The latest simulated time, as far as is known.
    pub fn max_timestamp(&mut self) -> (r: Option<CxxrtlTimestamp>)
        ensures
            r == match old(self).data.simulation_status.value() {
                Some(s) => Some(s.latest_time),
                None => None,
            },
            looked_up_status(*old(self), *final(self)),
    {
        match self.raw_simulation_status() {
            Some(s) => Some(s.latest_time),
            None => None,
        }
    }

    /// The end of the interval whose samples are held, if any; never requests anything.
    pub fn max_displayed_timestamp(&self) -> (r: Option<CxxrtlTimestamp>)
        ensures
            r == match self.data.query_result.value() {
                Some(t) => Some(*t),
                None => None,
            },
    {
        match self.data.query_result.get() {
            Some(t) => Some(*t),
            None => None,
        }
    }

    /// Asks the simulator to run for one more quantum past the latest known time (from
    /// zero when that is unknown). The status reads running at time zero at once, until
    /// the next status poll says otherwise.
    pub fn unpause(&mut self)
        ensures
            final(self).data == (CxxrtlData {
                simulation_status: CachedData::Filled(Arc::new(running_status())),
                ..old(self).data
            }),
            final(self).outbox@.take(old(self).outbox@.len() as int) == old(self).outbox@,
            final(self).outbox@.len() == old(self).outbox@.len() + if old(
                self,
            ).data.simulation_status.needs_request() {
                2int
            } else {
                1
            },
            old(self).data.simulation_status.needs_request() ==> {
                let poll = final(self).outbox@[old(self).outbox@.len() as int];
                poll.command is GetSimulationStatus && poll.op is Status
            },
            final(self).outbox@.last().op is Run,
            final(self).outbox@.last().command is RunSimulation,
            final(self).outbox@.last().command->until_time == Some(
                CxxrtlTimestamp {
                    femtoseconds: run_target(
                        match old(self).data.simulation_status.value() {
                            Some(s) => s.latest_time.femtoseconds,
                            None => 0,
                        },
                    ),
                },
            ),
            final(self).outbox@.last().command->until_diagnostics@.len() == 0,
            final(self).outbox@.last().command->sample_item_values,
    {
        let from = match self.raw_simulation_status() {
            Some(s) => s.latest_time.femtoseconds,
            None => 0,
        };
        let until = if from <= u128::MAX - RUN_QUANTUM_FS {
            from + RUN_QUANTUM_FS
        } else {
            u128::MAX
        };
        let cmd = CxxrtlCommand::RunSimulation {
            until_time: Some(CxxrtlTimestamp::from_femtoseconds(until)),
            until_diagnostics: Vec::new(),
            sample_item_values: true,
        };
        let ghost polled = self.outbox@;
        self.run_command(cmd, PendingOp::Run);
        self.data.simulation_status = CachedData::filled(
            CxxrtlSimulationStatus {
                status: SimulationStatusType::Running,
                latest_time: CxxrtlTimestamp::zero(),
            },
        );
        proof {
            assert(self.outbox@.take(old(self).outbox@.len() as int) =~= old(self).outbox@);
            if old(self).data.simulation_status.needs_request() {
                assert(self.outbox@[old(self).outbox@.len() as int] == polled.last());
            }
        }
    }

    /// Asks the simulator to pause. Once answered, the status reads paused at the time it
    /// reports, and the displayed interval is out of date.
    pub fn pause(&mut self)
        ensures
            final(self).data == old(self).data,
            sends_one(old(self).outbox@, final(self).outbox@),
            final(self).outbox@.last().command is PauseSimulation,
            final(self).outbox@.last().op is Pause,
    {
        self.run_command(CxxrtlCommand::PauseSimulation, PendingOp::Pause);
        proof {
            lemma_push_sends_one(old(self).outbox@, self.outbox@);
        }
    }

    /// Adds `variables` to the loaded signals, each in the next free position the first
    /// time it is loaded, and asks the simulator to reference all loaded signals.
    pub fn load_variables(&mut self, variables: &Vec<VariableRef>)
        requires
            old(self).wf(),
        ensures
            final(self).wf(),
            vars_view(final(self).data.loaded_signals@) == with_loaded(
                vars_view(old(self).data.loaded_signals@),
                vars_view(variables@),
            ),
            final(self).data == (CxxrtlData {
                loaded_signals: final(self).data.loaded_signals,
                ..old(self).data
            }),
            sends_one(old(self).outbox@, final(self).outbox@),
            final(self).outbox@.last().op is References,
            final(self).outbox@.last().command is ReferenceItems,
            final(self).outbox@.last().command->reference@ == default_reference(),
            references_loaded(
                final(self).outbox@.last().command->ReferenceItems_items@,
                vars_view(final(self).data.loaded_signals@),
            ),
    {
        let mut i: usize = 0;
        while i < variables.len()
            invariant
                i <= variables@.len(),
                self.wf(),
                vars_view(self.data.loaded_signals@) == with_loaded(
                    vars_view(old(self).data.loaded_signals@),
                    vars_view(variables@).take(i as int),
                ),
                self.data == (CxxrtlData {
                    loaded_signals: self.data.loaded_signals,
                    ..old(self).data
                }),
                self.outbox == old(self).outbox,
            decreases variables.len() - i,
        {
            let ghost before = vars_view(self.data.loaded_signals@);
            let ghost old_vec = self.data.loaded_signals@;
            proof {
                assert(vars_view(variables@).take(i + 1).drop_last() =~= vars_view(variables@).take(
                    i as int,
                ));
                assert(vars_view(variables@).take(i + 1).last() == variables@[i as int]@);
            }
            match crate::query::find_variable(&self.data.loaded_signals, &variables[i]) {
                Some(k) => {
                    proof {
                        assert(before[k as int] == variables@[i as int]@);
                    }
                },
                None => {
                    let v = variables[i].copy();
                    self.data.loaded_signals.push(v);
                    proof {
                        assert(vars_view(self.data.loaded_signals@) =~= before.push(v@));
                        assert forall|j: int| 0 <= j < before.len() implies before[j] != v@ by {
                            assert(before[j] == old_vec[j]@);
                        }
                        assert(!before.contains(v@));
                    }
                },
            }
            i = i + 1;
        }
        proof {
            assert(vars_view(variables@).take(variables@.len() as int) =~= vars_view(variables@));
        }
        let items = reference_list(&self.data.loaded_signals);
        self.run_command(
            CxxrtlCommand::ReferenceItems { reference: default_reference_string(), items },
            PendingOp::References,
        );
        proof {
            lemma_push_sends_one(old(self).outbox@, self.outbox@);
        }
    }

    /// The value of `variable` at `time`, from the samples of the interval from zero to
    /// the latest simulated time. Nothing while the latest time or the item table is
    /// unknown, or no signal is loaded; on a miss of the interval samples the interval
    /// query is requested and the result is empty until it is answered.
    pub fn query_variable(&mut self, variable: &VariableRef, time: &CxxrtlTimestamp) -> (r: Option<
        QueryResult,
    >)
        requires
            old(self).wf(),
        ensures
            final(self).wf(),
            r is None <==> (old(self).data.simulation_status.value() is None
                || old(self).data.all_items_cache.value() is None
                || old(self).data.loaded_signals@.len() == 0),
            r is Some ==> r->0.view() == if old(self).data.query_result.value() is Some {
                old(self).data.interval_query_cache.value_at(variable@, time.femtoseconds)
            } else {
                None
            },
            r is None ==> final(self).data == (CxxrtlData {
                simulation_status: old(self).data.simulation_status.after_fetch(),
                all_items_cache: if old(self).data.simulation_status.value() is Some {
                    old(self).data.all_items_cache.after_fetch()
                } else {
                    old(self).data.all_items_cache
                },
                ..old(self).data
            }),
            r is Some ==> final(self).data == (CxxrtlData {
                simulation_status: old(self).data.simulation_status.after_fetch(),
                all_items_cache: old(self).data.all_items_cache.after_fetch(),
                query_result: old(self).data.query_result.after_fetch(),
                ..old(self).data
            }),
            query_requests(*old(self), final(self).outbox@, r is Some),
    {
        let ghost o0 = self.outbox@;
        let status = match self.raw_simulation_status() {
            Some(s) => s,
            None => {
                proof {
                    assert(self.outbox@.take(o0.len() as int) =~= o0);
                }
                return None;
            },
        };
        let ghost o1 = self.outbox@;
        let max_timestamp = status.latest_time;
        let info = match self.fetch_all_items() {
            Some(t) => t,
            None => {
                proof {
                    assert(self.outbox@.take(o0.len() as int) =~= o0);
                    if old(self).data.simulation_status.needs_request() {
                        assert(self.outbox@[o0.len() as int] == o1.last());
                    }
                }
                return None;
            },
        };
        let ghost o2 = self.outbox@;
        proof {
            assert(o2.take(o0.len() as int) =~= o0);
            if old(self).data.simulation_status.needs_request() {
                assert(o2[o0.len() as int] == o1.last());
            }
        }
        if self.data.loaded_signals.len() == 0 {
            return None;
        }
        let loaded_signals = copy_variables(&self.data.loaded_signals);
        if self.data.query_result.is_uncached() {
            self.run_command(
                CxxrtlCommand::QueryInterval {
                    start: CxxrtlTimestamp::zero(),
                    end: max_timestamp,
                    collapse: true,
                    items: Some(default_reference_string()),
                    item_values_encoding: value_encoding_string(),
                    diagnostics: false,
                },
                PendingOp::Query { max_timestamp, loaded_signals, info },
            );
            proof {
                assert(self.outbox@.take(o0.len() as int) =~= o0);
                assert(self.outbox@.take(o2.len() as int) =~= o2);
                assert forall|j: int| 0 <= j < o2.len() implies self.outbox@[j] == o2[j] by {}
            }
        }
        let cached = self.data.query_result.fetch_if_needed(|| {});
        let res = match cached {
            Some(_) => self.data.interval_query_cache.query(variable, time.femtoseconds),
            None => QueryResult::none(),
        };
        Some(res)
    }
}

/// After a pause answered with time `t`, the status is known, so unpausing queues no
/// status poll and exactly one run command, which asks to reach `t` plus one quantum
/// (as long as that fits in a `u128`).
pub proof fn lemma_unpause_after_pause(t: CxxrtlTimestamp)
    requires
        t.femtoseconds + RUN_QUANTUM_FS <= u128::MAX,
    ensures
        ({
            let cell = CachedData::Filled(
                Arc::new(
                    CxxrtlSimulationStatus { status: SimulationStatusType::Paused, latest_time: t },
                ),
            );
            &&& !cell.needs_request()
            &&& cell.value()->0.latest_time.femtoseconds == t.femtoseconds
            &&& run_target(t.femtoseconds) == t.femtoseconds + RUN_QUANTUM_FS
        }),
{
}

/// `req` asks for the samples of all referenced signals from zero to `max`, collapsed,
/// as base64 words, without diagnostics; its answer is to be applied with `max`, the
/// loaded signals `loaded` and the item table `info`.
pub open spec fn is_interval_query(
    req: Request,
    max: CxxrtlTimestamp,
    loaded: Seq<VarView>,
    info: Arc<ItemTable>,
) -> bool {
    &&& req.command is QueryInterval
    &&& req.command->start.femtoseconds == 0
    &&& req.command->end == max
    &&& req.command->collapse
    &&& req.command->QueryInterval_items is Some
    &&& req.command->QueryInterval_items->0@ == default_reference()
    &&& req.command->item_values_encoding@ == value_encoding()
    &&& !req.command->diagnostics
    &&& req.op is Query
    &&& req.op->max_timestamp == max
    &&& vars_view(req.op->loaded_signals@) == loaded
    &&& req.op->info == info
}

/// `new` is the outbox of `old` after a point query, `answered` telling whether it had
/// what it needs: a status poll if the status cell was absent; then, if the status was
/// known, a full item listing if the item table's cell was absent; then, if the query was
/// answered and the query cell was absent, one interval query up to the latest time with
/// the loaded signals and the item table. Nothing else.
pub open spec fn query_requests(old: CxxrtlContainer, new: Seq<Request>, answered: bool) -> bool {
    let o = old.outbox@;
    let ns: int = if old.data.simulation_status.needs_request() { 1 } else { 0 };
    let ni: int = if old.data.simulation_status.value() is Some
        && old.data.all_items_cache.needs_request() {
        1
    } else {
        0
    };
    let nq: int = if answered && old.data.query_result.needs_request() { 1 } else { 0 };
    &&& new.len() == o.len() + ns + ni + nq
    &&& new.take(o.len() as int) == o
    &&& ns == 1 ==> new[o.len() as int].command is GetSimulationStatus && new[o.len() as int].op is Status
    &&& ni == 1 ==> {
        let req = new[o.len() + ns];
        req.command is ListItems && req.command->ListItems_scope is None && req.op is AllItems
    }
    &&& nq == 1 ==> is_interval_query(
        new[o.len() + ns + ni],
        old.data.simulation_status.value()->0.latest_time,
        vars_view(old.data.loaded_signals@),
        old.data.all_items_cache.value()->0,
    )
}

/// The encoding in which interval samples are asked for.
pub open spec fn value_encoding() -> Seq<char> {
    seq!['b', 'a', 's', 'e', '6', '4', '(', 'u', '3', '2', ')']
}

fn value_encoding_string() -> (r: String)
    ensures
        r@ == value_encoding(),
{
    let r = String::from_str("base64(u32)");
    proof {
        reveal_strlit("base64(u32)");
        assert(r@ =~= value_encoding());
    }
    r
}

/// The time a run started at `from` is asked to reach: one quantum later, or the largest
/// time there is.
pub open spec fn run_target(from: u128) -> u128 {
    if from + RUN_QUANTUM_FS <= u128::MAX {
        (from + RUN_QUANTUM_FS) as u128
    } else {
        u128::MAX
    }
}

/// The loaded signals after loading `vars` in order: each one not loaded yet takes the
/// next free position, one already loaded keeps its own.
pub open spec fn with_loaded(s: Seq<VarView>, vars: Seq<VarView>) -> Seq<VarView>
    decreases vars.len(),
{
    if vars.len() == 0 {
        s
    } else {
        let p = with_loaded(s, vars.drop_last());
        if p.contains(vars.last()) {
            p
        } else {
            p.push(vars.last())
        }
    }
}

/// Loading keeps every position already assigned, never gives two positions to one
/// variable, and gives every loaded variable a position. Loading variables that are all
/// loaded already changes nothing; loading distinct new variables appends them in order.
pub proof fn lemma_loaded_positions(s: Seq<VarView>, vars: Seq<VarView>)
    requires
        distinct(s),
    ensures
        distinct(with_loaded(s, vars)),
        with_loaded(s, vars).len() >= s.len(),
        forall|i: int| 0 <= i < s.len() ==> #[trigger] with_loaded(s, vars)[i] == s[i],
        forall|x: VarView| vars.contains(x) ==> #[trigger] with_loaded(s, vars).contains(x),
        forall|x: VarView| #[trigger] with_loaded(s, vars).contains(x) ==> s.contains(x) || vars.contains(x),
        (forall|x: VarView| vars.contains(x) ==> s.contains(x)) ==> with_loaded(s, vars) == s,
        distinct(vars) && (forall|x: VarView| vars.contains(x) ==> !s.contains(x)) ==> with_loaded(
            s,
            vars,
        ) == s + vars,
    decreases vars.len(),
{
    if vars.len() > 0 {
        let d = vars.drop_last();
        lemma_loaded_positions(s, d);
        let p = with_loaded(s, d);
        let x = vars.last();
        assert forall|y: VarView| vars.contains(y) implies with_loaded(s, vars).contains(y) by {
            let k = choose|k: int| 0 <= k < vars.len() && vars[k] == y;
            if k < vars.len() - 1 {
                assert(d[k] == y);
                assert(d.contains(y));
                assert(p.contains(y));
                let m = choose|m: int| 0 <= m < p.len() && p[m] == y;
                assert(with_loaded(s, vars)[m] == y);
            } else if !p.contains(x) {
                assert(with_loaded(s, vars)[p.len() as int] == y);
            }
        }
        assert forall|y: VarView| #[trigger] with_loaded(s, vars).contains(y) implies s.contains(y)
            || vars.contains(y) by {
            let w = with_loaded(s, vars);
            let m = choose|m: int| 0 <= m < w.len() && w[m] == y;
            if m < p.len() {
                assert(p[m] == y);
                assert(p.contains(y));
                if d.contains(y) {
                    let k = choose|k: int| 0 <= k < d.len() && d[k] == y;
                    assert(vars[k] == y);
                }
            } else {
                assert(vars[vars.len() - 1] == y);
            }
        }
        if forall|y: VarView| vars.contains(y) ==> s.contains(y) {
            assert forall|y: VarView| d.contains(y) implies s.contains(y) by {
                let k = choose|k: int| 0 <= k < d.len() && d[k] == y;
                assert(vars[k] == y);
            }
            assert(vars[vars.len() - 1] == x);
            let m = choose|m: int| 0 <= m < s.len() && s[m] == x;
            assert(p[m] == x);
        }
        if distinct(vars) && (forall|y: VarView| vars.contains(y) ==> !s.contains(y)) {
            assert forall|y: VarView| d.contains(y) implies !s.contains(y) by {
                let k = choose|k: int| 0 <= k < d.len() && d[k] == y;
                assert(vars[k] == y);
            }
            assert forall|i: int, j: int|
                0 <= i < d.len() && 0 <= j < d.len() && i != j implies d[i] != d[j] by {
                assert(vars[i] == d[i] && vars[j] == d[j]);
            }
            assert(p == s + d);
            assert(vars[vars.len() - 1] == x);
            if p.contains(x) {
                let m = choose|m: int| 0 <= m < p.len() && p[m] == x;
                if m < s.len() {
                    assert(s[m] == x);
                    assert(s.contains(x));
                } else {
                    assert(d[m - s.len()] == x);
                    assert(vars[m - s.len()] == x);
                }
            }
            assert(s + vars =~= (s + d).push(x));
        }
    }
}

/// Loading the same variables a second time changes no position.
pub proof fn lemma_load_twice(s: Seq<VarView>, vars: Seq<VarView>)
    requires
        distinct(s),
    ensures
        with_loaded(with_loaded(s, vars), vars) == with_loaded(s, vars),
{
    lemma_loaded_positions(s, vars);
    lemma_loaded_positions(with_loaded(s, vars), vars);
}

/// The name under which the loaded signals are referenced.
pub open spec fn default_reference() -> Seq<char> {
    seq!['A', 'L', 'L', '_', 'V', 'A', 'R', 'I', 'A', 'B', 'L', 'E', 'S']
}

/// `items` names each loaded signal by its name on the wire, one list per signal.
pub open spec fn references_loaded(items: Seq<Vec<String>>, loaded: Seq<VarView>) -> bool {
    &&& items.len() == loaded.len()
    &&& forall|i: int|
        0 <= i < items.len() ==> #[trigger] items[i]@.len() == 1 && items[i]@[0]@ == key_of_var(
            loaded[i],
        )
}

fn default_reference_string() -> (r: String)
    ensures
        r@ == default_reference(),
{
    let r = String::from_str("ALL_VARIABLES");
    proof {
        reveal_strlit("ALL_VARIABLES");
        assert(r@ =~= default_reference());
    }
    r
}

fn reference_list(loaded: &Vec<VariableRef>) -> (r: Vec<Vec<String>>)
    ensures
        references_loaded(r@, vars_view(loaded@)),
{
    let mut out: Vec<Vec<String>> = Vec::new();
    let mut i: usize = 0;
    while i < loaded.len()
        invariant
            i <= loaded@.len(),
            out@.len() == i,
            forall|j: int|
                0 <= j < i ==> #[trigger] out@[j]@.len() == 1 && out@[j]@[0]@ == key_of_var(
                    loaded@[j]@,
                ),
        decreases loaded.len() - i,
    {
        let name = loaded[i].cxxrtl_repr();
        out.push(vec![name]);
        i = i + 1;
    }
    out
}

fn copy_variables(v: &Vec<VariableRef>) -> (r: Vec<VariableRef>)
    ensures
        vars_view(r@) == vars_view(v@),
{
    let mut out: Vec<VariableRef> = Vec::new();
    let mut i: usize = 0;
    while i < v.len()
        invariant
            i <= v@.len(),
            vars_view(out@) == vars_view(v@).take(i as int),
        decreases v.len() - i,
    {
        let c = v[i].copy();
        proof {
            let vv = vars_view(v@);
            assert(vv.take(i + 1) =~= vv.take(i as int).push(vv[i as int]));
            assert(vars_view(out@.push(c)) =~= vars_view(out@).push(c@));
        }
        out.push(c);
        i = i + 1;
    }
    proof {
        assert(vars_view(v@).take(v@.len() as int) =~= vars_view(v@));
    }
    out
}

/// What is known of a variable.
pub struct VariableMeta {
    pub var: VariableRef,
    /// Its width in bits, if known.
    pub num_bits: Option<u32>,
}

fn table_variables(t: &ItemTable) -> (r: Vec<VariableRef>)
    ensures
        vars_view(r@) == items_view(t@).map_values(|e: (VarView, u32)| e.0),
{
    let ghost want = items_view(t@).map_values(|e: (VarView, u32)| e.0);
    let mut out: Vec<VariableRef> = Vec::new();
    let mut i: usize = 0;
    while i < t.len()
        invariant
            i <= t@.len(),
            want == items_view(t@).map_values(|e: (VarView, u32)| e.0),
            vars_view(out@) == want.take(i as int),
        decreases t.len() - i,
    {
        let v = t[i].0.copy();
        proof {
            assert(want.take(i + 1) =~= want.take(i as int).push(want[i as int]));
            assert(vars_view(out@.push(v)) =~= vars_view(out@).push(v@));
        }
        out.push(v);
        i = i + 1;
    }
    proof {
        assert(want.take(t@.len() as int) =~= want);
    }
    out
}

proof fn lemma_push_sends_one(old: Seq<Request>, new: Seq<Request>)
    requires
        new == old.push(new.last()),
    ensures
        sends_one(old, new),
{
    assert(new.drop_last() =~= old);
}

fn copy_scopes(s: &Vec<ScopeRef>) -> (r: Vec<ScopeRef>)
    ensures
        scopes_view(r@) == scopes_view(s@),
{
    let mut out: Vec<ScopeRef> = Vec::new();
    let mut i: usize = 0;
    while i < s.len()
        invariant
            i <= s@.len(),
            scopes_view(out@) == scopes_view(s@).take(i as int),
        decreases s.len() - i,
    {
        let c = s[i].copy();
        proof {
            let sv = scopes_view(s@);
            assert(sv.take(i + 1) =~= sv.take(i as int).push(sv[i as int]));
            assert(scopes_view(out@.push(c)) =~= scopes_view(out@).push(c@));
        }
        out.push(c);
        i = i + 1;
    }
    proof {
        assert(scopes_view(s@).take(s@.len() as int) =~= scopes_view(s@));
    }
    out
}

fn contains_scope(s: &Vec<ScopeRef>, m: &ScopeRef) -> (r: bool)
    ensures
        r == scopes_view(s@).contains(m@),
{
    let mut i: usize = 0;
    while i < s.len()
        invariant
            i <= s@.len(),
            forall|j: int| 0 <= j < i ==> s@[j]@ != m@,
        decreases s.len() - i,
    {
        if s[i] == *m {
            proof {
                assert(scopes_view(s@)[i as int] == m@);
            }
            return true;
        }
        i = i + 1;
    }
    proof {
        assert forall|j: int| 0 <= j < s@.len() implies scopes_view(s@)[j] != m@ by {
            assert(scopes_view(s@)[j] == s@[j]@);
        }
    }
    false
}

} // verus!
