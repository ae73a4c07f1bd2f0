use std::sync::Arc;
use vstd::prelude::*;

use crate::cache::CachedData;
use crate::protocol::CommandResponse;
use crate::protocol::CxxrtlCommand;
use crate::protocol::CxxrtlItem;
use crate::protocol::CxxrtlSimulationStatus;
use crate::protocol::CxxrtlTimestamp;
use crate::protocol::SimulationStatusType;
use crate::query::expected_series;
use crate::query::find_first;
use crate::query::item_width;
use crate::query::items_view;
use crate::query::lemma_find_first_none;
use crate::query::lemma_find_first_some;
use crate::query::lemma_find_first_spec;
use crate::query::samples_view;
use crate::query::vars_view;
use crate::query::QueryContainer;
use crate::query::VarView;
use crate::refs::scopes_view;
use crate::refs::split_on;
use crate::refs::ScopeRef;
use crate::refs::VariableRef;
use crate::refs::SEPARATOR;

verus! {

/// The known items, each with its metadata.
pub type ItemTable = Vec<(VariableRef, CxxrtlItem)>;

/// What to do with the answer to a command once it arrives. Answers come in the order
/// in which the commands were sent.
pub enum PendingOp {
    Scopes,
    AllItems,
    ModuleItems(ScopeRef),
    Query { max_timestamp: CxxrtlTimestamp, loaded_signals: Vec<VariableRef>, info: Arc<ItemTable> },
    References,
    Status,
    Run,
    Pause,
}

/// A command for the simulator, with what to do with its answer.
pub struct Request {
    pub command: CxxrtlCommand,
    pub op: PendingOp,
}

/// All that is cached from the simulator.
pub struct CxxrtlData {
    pub scopes_cache: CachedData<Vec<ScopeRef>>,
    pub module_item_cache: Vec<(ScopeRef, CachedData<ItemTable>)>,
    pub all_items_cache: CachedData<ItemTable>,
    /// Tracks whether an interval query was sent; the value held is the end of the
    /// interval whose samples `interval_query_cache` holds.
    pub query_result: CachedData<CxxrtlTimestamp>,
    pub interval_query_cache: QueryContainer,
    /// The variables asked to be tracked, in the order they were first loaded.
    pub loaded_signals: Vec<VariableRef>,
    pub simulation_status: CachedData<CxxrtlSimulationStatus>,
    /// Set when what is displayed should be drawn again.
    pub redraw_requested: bool,
}

/// The scope path of a scope name on the wire; the empty name is the root scope.
pub open spec fn scope_of_name(n: Seq<char>) -> Seq<Seq<char>> {
    if n.len() == 0 {
        Seq::empty()
    } else {
        split_on(n, SEPARATOR)
    }
}

pub open spec fn names_view(v: Seq<String>) -> Seq<Seq<char>> {
    v.map_values(|s: String| s@)
}

pub open spec fn wire_items_view(v: Seq<(String, CxxrtlItem)>) -> Seq<(Seq<char>, u32)> {
    v.map_values(|p: (String, CxxrtlItem)| (p.0@, p.1.width))
}

/// The item table that a list of items on the wire decodes to: an item with an empty
/// name is left out, every other becomes the variable its name denotes, and of items that
/// denote the same variable only the first is kept.
pub open spec fn decoded_items(items: Seq<(Seq<char>, u32)>) -> Seq<(VarView, u32)>
    decreases items.len(),
{
    if items.len() == 0 {
        Seq::empty()
    } else {
        let p = decoded_items(items.drop_last());
        if items.last().0.len() == 0 || item_width(p, crate::refs::var_of_key(items.last().0)) is Some {
            p
        } else {
            p.push((crate::refs::var_of_key(items.last().0), items.last().1))
        }
    }
}

/// The scope paths that a scope listing decodes to, each kept once, in order of first
/// appearance.
pub open spec fn decoded_scopes(names: Seq<Seq<char>>) -> Seq<Seq<Seq<char>>>
    decreases names.len(),
{
    if names.len() == 0 {
        Seq::empty()
    } else {
        let p = decoded_scopes(names.drop_last());
        let s = scope_of_name(names.last());
        if p.contains(s) {
            p
        } else {
            p.push(s)
        }
    }
}

/// Appending an element not yet present keeps a sequence free of duplicates.
pub proof fn lemma_push_distinct<A>(s: Seq<A>, x: A)
    requires
        distinct(s),
        !s.contains(x),
    ensures
        distinct(s.push(x)),
{
    assert forall|i: int, j: int|
        0 <= i < s.len() + 1 && 0 <= j < s.len() + 1 && i != j implies s.push(x)[i] != s.push(x)[j] by {
        if i == s.len() {
            assert(s[j] == s.push(x)[j]);
        } else if j == s.len() {
            assert(s[i] == s.push(x)[i]);
        }
    }
}

/// The variables of an item table.
pub open spec fn item_keys(t: Seq<(VarView, u32)>) -> Seq<VarView> {
    t.map_values(|e: (VarView, u32)| e.0)
}

/// No variable has two entries in the table, if there is one.
pub open spec fn table_ok(v: Option<Arc<ItemTable>>) -> bool {
    match v {
        Some(t) => distinct(item_keys(items_view(t@))),
        None => true,
    }
}

/// No scope appears twice in the list, if there is one.
pub open spec fn scopes_ok(v: Option<Arc<Vec<ScopeRef>>>) -> bool {
    match v {
        Some(t) => distinct(scopes_view(t@)),
        None => true,
    }
}

/// A table without an entry for `v` has no element whose variable is `v`.
pub proof fn lemma_item_width_none(t: Seq<(VarView, u32)>, v: VarView)
    requires
        item_width(t, v) is None,
    ensures
        !item_keys(t).contains(v),
    decreases t.len(),
{
    if t.len() > 0 {
        lemma_item_width_none(t.drop_last(), v);
        assert forall|i: int| 0 <= i < t.len() implies item_keys(t)[i] != v by {
            if i < t.len() - 1 {
                assert(item_keys(t.drop_last())[i] == item_keys(t)[i]);
            }
        }
    }
}

fn contains_scope_path(v: &Vec<ScopeRef>, s: &ScopeRef) -> (r: bool)
    ensures
        r == scopes_view(v@).contains(s@),
{
    let mut i: usize = 0;
    while i < v.len()
        invariant
            i <= v@.len(),
            forall|j: int| 0 <= j < i ==> v@[j]@ != s@,
        decreases v.len() - i,
    {
        if v[i] == *s {
            proof {
                assert(scopes_view(v@)[i as int] == s@);
            }
            return true;
        }
        i = i + 1;
    }
    proof {
        assert forall|j: int| 0 <= j < v@.len() implies scopes_view(v@)[j] != s@ by {
            assert(scopes_view(v@)[j] == v@[j]@);
        }
    }
    false
}

/// Decodes the scope names of a scope listing.
pub fn decode_scopes(names: &Vec<String>) -> (r: Vec<ScopeRef>)
    ensures
        scopes_view(r@) == decoded_scopes(names_view(names@)),
        distinct(scopes_view(r@)),
{
    let ghost nv = names_view(names@);
    let mut out: Vec<ScopeRef> = Vec::new();
    let mut i: usize = 0;
    proof {
        assert(nv.take(0) =~= Seq::<Seq<char>>::empty());
        assert(scopes_view(out@) =~= Seq::<Seq<Seq<char>>>::empty());
    }
    while i < names.len()
        invariant
            i <= names@.len(),
            nv == names_view(names@),
            scopes_view(out@) == decoded_scopes(nv.take(i as int)),
            distinct(scopes_view(out@)),
        decreases names.len() - i,
    {
        let s = if names[i].as_str().is_empty() {
            ScopeRef::root()
        } else {
            ScopeRef::from_cxxrtl_name(names[i].as_str())
        };
        proof {
            assert(s@ == scope_of_name(nv[i as int]));
            assert(nv.take(i + 1).drop_last() =~= nv.take(i as int));
            assert(nv.take(i + 1).last() == nv[i as int]);
        }
        if !contains_scope_path(&out, &s) {
            proof {
                assert(scopes_view(out@.push(s)) =~= scopes_view(out@).push(s@));
                lemma_push_distinct(scopes_view(out@), s@);
            }
            out.push(s);
        }
        i = i + 1;
    }
    proof {
        assert(nv.take(names@.len() as int) =~= nv);
    }
    out
}

/// Decodes the items of an item listing into an item table.
pub fn item_list_to_table(items: &Vec<(String, CxxrtlItem)>) -> (r: ItemTable)
    ensures
        items_view(r@) == decoded_items(wire_items_view(items@)),
        distinct(item_keys(items_view(r@))),
{
    let ghost all = wire_items_view(items@);
    let mut out: ItemTable = Vec::new();
    let mut i: usize = 0;
    proof {
        assert(all.take(0) =~= Seq::<(Seq<char>, u32)>::empty());
        assert(items_view(out@) =~= Seq::<(VarView, u32)>::empty());
    }
    while i < items.len()
        invariant
            i <= items@.len(),
            all == wire_items_view(items@),
            items_view(out@) == decoded_items(all.take(i as int)),
            distinct(item_keys(items_view(out@))),
        decreases items.len() - i,
    {
        proof {
            assert(all.take(i + 1).drop_last() =~= all.take(i as int));
            assert(all.take(i + 1).last() == all[i as int]);
        }
        let key = items[i].0.as_str();
        if !key.is_empty() {
            let v = VariableRef::from_cxxrtl_name(key);
            if crate::query::find_item_width(&out, &v).is_none() {
                let e = (v, items[i].1);
                proof {
                    assert(items_view(out@.push(e)) =~= items_view(out@).push((e.0@, e.1.width)));
                    assert(item_keys(items_view(out@).push((e.0@, e.1.width))) =~= item_keys(
                        items_view(out@),
                    ).push(e.0@));
                    lemma_item_width_none(items_view(out@), v@);
                    lemma_push_distinct(item_keys(items_view(out@)), e.0@);
                }
                out.push(e);
            }
        }
        i = i + 1;
    }
    proof {
        assert(all.take(items@.len() as int) =~= all);
    }
    out
}

/// The scopes that have a cell in the per-module cache.
pub open spec fn module_keys(s: Seq<(ScopeRef, CachedData<ItemTable>)>) -> Seq<Seq<Seq<char>>> {
    s.map_values(|e: (ScopeRef, CachedData<ItemTable>)| e.0@)
}

/// The cell for `p` in the per-module cache; a scope never asked for has an empty cell.
pub open spec fn module_cell(s: Seq<(ScopeRef, CachedData<ItemTable>)>, p: Seq<Seq<char>>) -> CachedData<
    ItemTable,
> {
    match find_first(module_keys(s), p) {
        Some(i) => s[i].1,
        None => CachedData::Uncached { prev: None },
    }
}

/// No two elements are equal.
pub open spec fn distinct<A>(s: Seq<A>) -> bool {
    forall|i: int, j: int| 0 <= i < s.len() && 0 <= j < s.len() && i != j ==> s[i] != s[j]
}

impl CxxrtlData {
    /// The loaded signals are distinct, each scope has at most one cell, the interval
    /// samples are well formed, and no cached scope list or item table holds duplicates.
    pub open spec fn wf(&self) -> bool {
        &&& distinct(vars_view(self.loaded_signals@))
        &&& distinct(module_keys(self.module_item_cache@))
        &&& self.interval_query_cache.wf()
        &&& scopes_ok(self.scopes_cache.value())
        &&& table_ok(self.all_items_cache.value())
        &&& forall|i: int|
            0 <= i < self.module_item_cache@.len() ==> table_ok(
                #[trigger] self.module_item_cache@[i].1.value(),
            )
    }

    /// Nothing is known, nothing is cached, nothing is loaded.
    pub open spec fn is_initial(&self) -> bool {
        &&& self.wf()
        &&& self.scopes_cache == (CachedData::<Vec<ScopeRef>>::Uncached { prev: None })
        &&& self.module_item_cache@.len() == 0
        &&& self.all_items_cache == (CachedData::<ItemTable>::Uncached { prev: None })
        &&& self.query_result == (CachedData::<CxxrtlTimestamp>::Uncached { prev: None })
        &&& self.interval_query_cache.variables@.len() == 0
        &&& self.loaded_signals@.len() == 0
        &&& self.simulation_status == (CachedData::<CxxrtlSimulationStatus>::Uncached { prev: None })
        &&& !self.redraw_requested
    }

    /// Everything empty, nothing known yet.
    pub fn new() -> (r: CxxrtlData)
        ensures
            r.is_initial(),
    {
        let r = CxxrtlData {
            scopes_cache: CachedData::empty(),
            module_item_cache: Vec::new(),
            all_items_cache: CachedData::empty(),
            query_result: CachedData::empty(),
            interval_query_cache: QueryContainer::empty(),
            loaded_signals: Vec::new(),
            simulation_status: CachedData::empty(),
            redraw_requested: false,
        };
        proof {
            assert(vars_view(r.loaded_signals@) =~= Seq::<VarView>::empty());
            assert(module_keys(r.module_item_cache@) =~= Seq::<Seq<Seq<char>>>::empty());
        }
        r
    }

    /// Stores a new simulation status; the displayed interval is out of date from now on.
    pub fn on_simulation_status_update(&mut self, status: CxxrtlSimulationStatus)
        ensures
            *final(self) == (CxxrtlData {
                simulation_status: CachedData::Filled(Arc::new(status)),
                query_result: old(self).query_result.invalidated(),
                redraw_requested: true,
                ..*old(self)
            }),
    {
        self.simulation_status = CachedData::filled(status);
        self.redraw_requested = true;
        self.invalidate_query_result();
    }

    /// Marks the interval query as out of date, keeping its end as fallback.
    pub fn invalidate_query_result(&mut self)
        ensures
            *final(self) == (CxxrtlData {
                query_result: old(self).query_result.invalidated(),
                redraw_requested: true,
                ..*old(self)
            }),
    {
        self.query_result = self.query_result.make_uncached();
        self.redraw_requested = true;
    }

    /// The position of the cell for `scope` in the per-module cache.
    pub fn find_module(&self, scope: &ScopeRef) -> (r: Option<usize>)
        ensures
            r is Some ==> (find_first(module_keys(self.module_item_cache@), scope@) == Some(
                r->0 as int,
            ) && r->0 < self.module_item_cache@.len()),
            r is None ==> find_first(module_keys(self.module_item_cache@), scope@) is None,
    {
        let ghost keys = module_keys(self.module_item_cache@);
        let mut i: usize = 0;
        while i < self.module_item_cache.len()
            invariant
                i <= self.module_item_cache@.len(),
                keys == module_keys(self.module_item_cache@),
                forall|j: int| 0 <= j < i ==> keys[j] != scope@,
            decreases self.module_item_cache.len() - i,
        {
            if self.module_item_cache[i].0 == *scope {
                proof {
                    lemma_find_first_some(keys, scope@, i as int);
                }
                return Some(i);
            }
            i = i + 1;
        }
        proof {
            lemma_find_first_none(keys, scope@);
        }
        None
    }
}

/// Whether `response` is the kind of answer that `op` waits for.
pub open spec fn response_matches(op: PendingOp, response: CommandResponse) -> bool {
    match op {
        PendingOp::Scopes => response is ListScopes,
        PendingOp::AllItems => response is ListItems,
        PendingOp::ModuleItems(_) => response is ListItems,
        PendingOp::Query { .. } => response is QueryInterval,
        PendingOp::References => response is ReferenceItems,
        PendingOp::Status => response is GetSimulationStatus,
        PendingOp::Run => response is RunSimulation,
        PendingOp::Pause => response is PauseSimulation,
    }
}

/// The status that a status answer reports.
pub open spec fn reported_status(response: CommandResponse) -> CxxrtlSimulationStatus
    recommends
        response is GetSimulationStatus,
{
    match response {
        CommandResponse::GetSimulationStatus(st) => st,
        _ => arbitrary(),
    }
}

/// The status believed right after a run command was answered: running, at time zero
/// until the next status poll says otherwise.
pub open spec fn running_status() -> CxxrtlSimulationStatus {
    CxxrtlSimulationStatus {
        status: SimulationStatusType::Running,
        latest_time: CxxrtlTimestamp { femtoseconds: 0 },
    }
}

/// A cell filled with an item table decoded from `items`.
pub open spec fn filled_with_items(c: CachedData<ItemTable>, items: Seq<(String, CxxrtlItem)>) -> bool {
    c is Filled && items_view(c->0@) == decoded_items(wire_items_view(items))
}

/// `new` is `old` with the answer `response` to the request that `op` stands for
/// applied:
/// - a scope listing fills the scope cell with the decoded scopes;
/// - an item listing fills the item table's cell, or the cell of the listed scope, with
///   the decoded items, leaving every other scope's cell as it was;
/// - interval samples fill the query cell with the interval's end, rebuild the sample
///   store from the loaded signals, item table and samples of the request, and ask for a
///   redraw;
/// - a status, a pause, a reference or a run answer invalidates the query cell and asks
///   for a redraw; a status or pause answer also stores the status it reports.
pub open spec fn applied(old: CxxrtlData, op: PendingOp, response: CommandResponse, new: CxxrtlData) -> bool {
    match op {
        PendingOp::Scopes => {
            &&& new == (CxxrtlData { scopes_cache: new.scopes_cache, ..old })
            &&& new.scopes_cache is Filled
            &&& scopes_view(new.scopes_cache->0@) == decoded_scopes(names_view(response->scopes@))
        },
        PendingOp::AllItems => {
            &&& new == (CxxrtlData { all_items_cache: new.all_items_cache, ..old })
            &&& filled_with_items(new.all_items_cache, response->items@)
        },
        PendingOp::ModuleItems(scope) => {
            &&& new == (CxxrtlData { module_item_cache: new.module_item_cache, ..old })
            &&& filled_with_items(module_cell(new.module_item_cache@, scope@), response->items@)
            &&& forall|p: Seq<Seq<char>>|
                p != scope@ ==> #[trigger] module_cell(new.module_item_cache@, p) == module_cell(
                    old.module_item_cache@,
                    p,
                )
        },
        PendingOp::Query { max_timestamp, loaded_signals, info } => {
            &&& new == (CxxrtlData {
                query_result: CachedData::Filled(Arc::new(max_timestamp)),
                interval_query_cache: new.interval_query_cache,
                redraw_requested: true,
                ..old
            })
            &&& new.interval_query_cache.variables@ == loaded_signals@
            &&& forall|k: int|
                0 <= k < loaded_signals@.len() ==> #[trigger] new.interval_query_cache.series_at(k)
                    == expected_series(
                    vars_view(loaded_signals@).map_values(
                        |v: VarView| item_width(items_view(info@), v),
                    ),
                    samples_view(response->samples@),
                    k,
                )
        },
        PendingOp::Status => new == (CxxrtlData {
            simulation_status: CachedData::Filled(Arc::new(reported_status(response))),
            query_result: old.query_result.invalidated(),
            redraw_requested: true,
            ..old
        }),
        PendingOp::Pause => new == (CxxrtlData {
            simulation_status: CachedData::Filled(
                Arc::new(
                    CxxrtlSimulationStatus {
                        status: SimulationStatusType::Paused,
                        latest_time: response->time,
                    },
                ),
            ),
            query_result: old.query_result.invalidated(),
            redraw_requested: true,
            ..old
        }),
        PendingOp::References | PendingOp::Run => new == (CxxrtlData {
            query_result: old.query_result.invalidated(),
            redraw_requested: true,
            ..old
        }),
    }
}

/// An answer of the wrong kind to a pending scope listing applies nothing, so the
/// waiting scope cell stays waiting with its fallback value; and lookups of a waiting
/// cell request nothing and serve that fallback, until something invalidates the cell.
pub proof fn lemma_wrong_answer_strands_cell(d: CxxrtlData, response: CommandResponse)
    requires
        d.scopes_cache is Waiting,
        !(response is ListScopes),
    ensures
        !response_matches(PendingOp::Scopes, response),
        !d.scopes_cache.needs_request(),
        d.scopes_cache.after_fetch() == d.scopes_cache,
        d.scopes_cache.value() == d.scopes_cache->Waiting_prev,
{
}

impl CxxrtlData {
    /// Puts `cell` in the per-module cache as the cell for `scope`.
    pub fn set_module_cell(&mut self, scope: &ScopeRef, cell: CachedData<ItemTable>)
        requires
            old(self).wf(),
            table_ok(cell.value()),
        ensures
            final(self).wf(),
            module_cell(final(self).module_item_cache@, scope@) == cell,
            forall|p: Seq<Seq<char>>|
                p != scope@ ==> #[trigger] module_cell(final(self).module_item_cache@, p)
                    == module_cell(old(self).module_item_cache@, p),
            *final(self) == (CxxrtlData {
                module_item_cache: final(self).module_item_cache,
                ..*old(self)
            }),
    {
        let ghost old_cache = self.module_item_cache@;
        let ghost keys = module_keys(old_cache);
        proof {
            lemma_find_first_spec(keys, scope@);
        }
        match self.find_module(scope) {
            Some(i) => {
                let key = self.module_item_cache[i].0.copy();
                self.module_item_cache.set(i, (key, cell));
                proof {
                    let nk = module_keys(self.module_item_cache@);
                    assert(nk =~= keys);
                    assert forall|p: Seq<Seq<char>>|
                        p != scope@ implies #[trigger] module_cell(self.module_item_cache@, p)
                        == module_cell(old_cache, p) by {
                        lemma_find_first_spec(keys, p);
                    }
                }
            },
            None => {
                let key = scope.copy();
                self.module_item_cache.push((key, cell));
                proof {
                    let nk = module_keys(self.module_item_cache@);
                    assert(nk =~= keys.push(scope@));
                    assert(forall|j: int| 0 <= j < keys.len() ==> nk[j] == keys[j]);
                    lemma_find_first_some(nk, scope@, keys.len() as int);
                    assert forall|p: Seq<Seq<char>>|
                        p != scope@ implies #[trigger] module_cell(self.module_item_cache@, p)
                        == module_cell(old_cache, p) by {
                        lemma_find_first_spec(keys, p);
                        lemma_find_first_spec(nk, p);
                        match find_first(keys, p) {
                            Some(k) => lemma_find_first_some(nk, p, k),
                            None => lemma_find_first_none(nk, p),
                        }
                    }
                }
            },
        }
    }

    /// Applies the answer to a command: `op` says what the answer is for. An answer of
    /// another kind than `op` waits for changes nothing; `op` is used up either way.
    pub fn apply_response(&mut self, op: PendingOp, response: CommandResponse) -> (matched: bool)
        requires
            old(self).wf(),
        ensures
            final(self).wf(),
            matched == response_matches(op, response),
            !matched ==> *final(self) == *old(self),
            matched ==> applied(*old(self), op, response, *final(self)),
    {
        match op {
            PendingOp::Scopes => match response {
                CommandResponse::ListScopes { scopes } => {
                    self.scopes_cache = CachedData::filled(decode_scopes(&scopes));
                    true
                },
                _ => false,
            },
            PendingOp::AllItems => match response {
                CommandResponse::ListItems { items } => {
                    self.all_items_cache = CachedData::filled(item_list_to_table(&items));
                    true
                },
                _ => false,
            },
            PendingOp::ModuleItems(scope) => match response {
                CommandResponse::ListItems { items } => {
                    let cell = CachedData::filled(item_list_to_table(&items));
                    self.set_module_cell(&scope, cell);
                    true
                },
                _ => false,
            },
            PendingOp::Query { max_timestamp, loaded_signals, info } => match response {
                CommandResponse::QueryInterval { samples } => {
                    self.query_result = CachedData::filled(max_timestamp);
                    self.interval_query_cache.populate(loaded_signals, &info, &samples);
                    self.redraw_requested = true;
                    true
                },
                _ => false,
            },
            PendingOp::References => match response {
                CommandResponse::ReferenceItems => {
                    self.invalidate_query_result();
                    true
                },
                _ => false,
            },
            PendingOp::Status => match response {
                CommandResponse::GetSimulationStatus(status) => {
                    self.on_simulation_status_update(status);
                    true
                },
                _ => false,
            },
            PendingOp::Run => match response {
                CommandResponse::RunSimulation => {
                    self.invalidate_query_result();
                    true
                },
                _ => false,
            },
            PendingOp::Pause => match response {
                CommandResponse::PauseSimulation { time } => {
                    self.on_simulation_status_update(
                        CxxrtlSimulationStatus { status: SimulationStatusType::Paused, latest_time: time },
                    );
                    true
                },
                _ => false,
            },
        }
    }
}

} // verus!
