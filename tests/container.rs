use surfer_cxxrtl::cache::CachedData;
use surfer_cxxrtl::container::CxxrtlContainer;
use surfer_cxxrtl::container::RUN_QUANTUM_FS;
use surfer_cxxrtl::protocol::CommandResponse;
use surfer_cxxrtl::protocol::CxxrtlCommand;
use surfer_cxxrtl::protocol::CxxrtlItem;
use surfer_cxxrtl::protocol::CxxrtlSimulationStatus;
use surfer_cxxrtl::protocol::CxxrtlTimestamp;
use surfer_cxxrtl::protocol::Sample;
use surfer_cxxrtl::protocol::SimulationStatusType;
use surfer_cxxrtl::refs::ScopeRef;
use surfer_cxxrtl::refs::VariableRef;
use surfer_cxxrtl::state::item_list_to_table;
use surfer_cxxrtl::worker::CxxrtlWorker;
use surfer_cxxrtl::worker::Dispatch;

fn scope(v: &[&str]) -> ScopeRef {
    ScopeRef::from_strs(&v.iter().map(|s| s.to_string()).collect())
}

fn var(path: &[&str], name: &str) -> VariableRef {
    VariableRef::new(scope(path), name.to_string())
}

fn ts(fs: u128) -> CxxrtlTimestamp {
    CxxrtlTimestamp::from_femtoseconds(fs)
}

/// Sends what is queued, answering each request in order with `answer`.
fn answer_all(c: &mut CxxrtlContainer, answer: impl Fn(&CxxrtlCommand) -> CommandResponse) {
    for req in c.take_requests() {
        let response = answer(&req.command);
        assert!(c.apply_response(req.op, response));
    }
}

fn items_response() -> CommandResponse {
    CommandResponse::ListItems {
        items: vec![
            ("top cpu r0".to_string(), CxxrtlItem { width: 16 }),
            ("top mem data".to_string(), CxxrtlItem { width: 32 }),
        ],
    }
}

#[test]
fn child_scopes_of_top() {
    let mut c = CxxrtlContainer::new();
    assert!(c.child_scopes(&scope(&["top"])).is_empty());
    let reqs = c.take_requests();
    assert_eq!(reqs.len(), 1);
    assert!(matches!(reqs[0].command, CxxrtlCommand::ListScopes { scope: None }));
    let op = reqs.into_iter().next().unwrap().op;
    let response = CommandResponse::ListScopes { scopes: vec!["top".to_string(), "top cpu".to_string()] };
    assert!(c.apply_response(op, response));
    assert_eq!(c.child_scopes(&scope(&["top"])), vec![scope(&["top", "cpu"])]);
    assert_eq!(c.child_scopes(&ScopeRef::root()), vec![scope(&["top"])]);
    assert!(c.module_exists(&scope(&["top", "cpu"])));
    assert!(!c.module_exists(&scope(&["cpu"])));
    assert_eq!(c.root_modules(), vec![ScopeRef::root()]);
    assert_eq!(c.modules().len(), 2);
    assert!(c.take_requests().is_empty());
}

#[test]
fn items_decode_to_variables_with_widths() {
    let table = item_list_to_table(&vec![
        ("top cpu r0".to_string(), CxxrtlItem { width: 16 }),
        ("top mem data".to_string(), CxxrtlItem { width: 32 }),
        ("".to_string(), CxxrtlItem { width: 8 }),
        ("top cpu r0".to_string(), CxxrtlItem { width: 4 }),
    ]);
    assert_eq!(table.len(), 2);
    assert_eq!(table[0].0, var(&["top", "cpu"], "r0"));
    assert_eq!(table[0].1, CxxrtlItem { width: 16 });
    assert_eq!(table[1].0, var(&["top", "mem"], "data"));
    assert_eq!(table[1].1, CxxrtlItem { width: 32 });

    let mut c = CxxrtlContainer::new();
    assert_eq!(c.variable_meta(&var(&["top", "cpu"], "r0")).num_bits, None);
    answer_all(&mut c, |_| items_response());
    assert_eq!(c.variable_meta(&var(&["top", "cpu"], "r0")).num_bits, Some(16));
    assert_eq!(c.variable_meta(&var(&["top", "mem"], "data")).num_bits, Some(32));
    assert_eq!(c.variable_meta(&var(&["top"], "nothing")).num_bits, None);
}

#[test]
fn variables_in_module_are_fetched_per_scope() {
    let mut c = CxxrtlContainer::new();
    let top_cpu = scope(&["top", "cpu"]);
    assert!(c.no_variables_in_module(&top_cpu));
    assert!(c.variables_in_module(&top_cpu).is_empty());
    let reqs = c.take_requests();
    assert_eq!(reqs.len(), 1);
    match &reqs[0].command {
        CxxrtlCommand::ListItems { scope: Some(s) } => assert_eq!(s, "top cpu"),
        _ => panic!("expected an item listing for the scope"),
    }
    for r in reqs {
        let items = vec![("top cpu r0".to_string(), CxxrtlItem { width: 16 })];
        assert!(c.apply_response(r.op, CommandResponse::ListItems { items }));
    }
    assert_eq!(c.variables_in_module(&top_cpu), vec![var(&["top", "cpu"], "r0")]);
    assert!(!c.no_variables_in_module(&top_cpu));
    assert!(c.take_requests().is_empty());
}

#[test]
fn pause_then_unpause_runs_one_quantum_further() {
    let mut c = CxxrtlContainer::new();
    c.pause();
    let reqs = c.take_requests();
    assert_eq!(reqs.len(), 1);
    assert!(matches!(reqs[0].command, CxxrtlCommand::PauseSimulation));
    let t = 5_000_000u128;
    for r in reqs {
        assert!(c.apply_response(r.op, CommandResponse::PauseSimulation { time: ts(t) }));
    }
    assert!(c.take_redraw_request());
    assert_eq!(c.simulation_status(), Some(SimulationStatusType::Paused));
    assert_eq!(c.max_timestamp(), Some(ts(t)));

    c.unpause();
    assert_eq!(c.simulation_status(), Some(SimulationStatusType::Running));
    assert_eq!(c.max_timestamp(), Some(CxxrtlTimestamp::zero()));
    let reqs = c.take_requests();
    assert_eq!(reqs.len(), 1);
    match &reqs[0].command {
        CxxrtlCommand::RunSimulation { until_time, until_diagnostics, sample_item_values } => {
            assert_eq!(*until_time, Some(ts(t + RUN_QUANTUM_FS)));
            assert_eq!(t + RUN_QUANTUM_FS, 105_000_000);
            assert!(until_diagnostics.is_empty());
            assert!(*sample_item_values);
        }
        _ => panic!("expected a run command"),
    }
    c.take_redraw_request();
    for r in reqs {
        assert!(c.apply_response(r.op, CommandResponse::RunSimulation));
    }
    assert!(c.take_redraw_request());
    assert!(c.data.query_result.is_uncached());
    assert_eq!(c.simulation_status(), Some(SimulationStatusType::Running));
    assert_eq!(c.max_timestamp(), Some(CxxrtlTimestamp::zero()));
    assert!(c.take_requests().is_empty());
}

#[test]
fn unpause_from_unknown_time_starts_at_zero() {
    let mut c = CxxrtlContainer::new();
    c.unpause();
    let reqs = c.take_requests();
    assert_eq!(reqs.len(), 2);
    assert!(matches!(reqs[0].command, CxxrtlCommand::GetSimulationStatus));
    match &reqs[1].command {
        CxxrtlCommand::RunSimulation { until_time, .. } => {
            assert_eq!(*until_time, Some(ts(RUN_QUANTUM_FS)))
        }
        _ => panic!("expected a run command"),
    }
}

#[test]
fn wrong_answer_leaves_cell_waiting() {
    let mut c = CxxrtlContainer::new();
    let mut w = CxxrtlWorker::new();
    assert!(c.modules().is_empty());
    for r in c.take_requests() {
        w.on_command_sent(r.op);
    }
    let outcome = w.on_response(&mut c, CommandResponse::PauseSimulation { time: ts(1) });
    assert_eq!(outcome, Dispatch::Mismatched);
    assert!(w.callback_queue.is_empty());
    assert!(matches!(c.data.scopes_cache, CachedData::Waiting { prev: None }));
    assert!(c.modules().is_empty());
    assert!(c.take_requests().is_empty());
    assert!(matches!(c.data.scopes_cache, CachedData::Waiting { prev: None }));
    let again = w.on_response(&mut c, CommandResponse::ListScopes { scopes: vec![] });
    assert_eq!(again, Dispatch::Unexpected);
}

#[test]
fn loaded_positions_are_stable() {
    let mut c = CxxrtlContainer::new();
    let a = var(&["top"], "a");
    let b = var(&["top"], "b");
    let d = var(&["top"], "d");
    c.load_variables(&vec![a.clone(), b.clone()]);
    c.load_variables(&vec![b.clone(), a.clone(), d.clone()]);
    assert_eq!(c.data.loaded_signals, vec![a.clone(), b.clone(), d.clone()]);
    let reqs = c.take_requests();
    assert_eq!(reqs.len(), 2);
    match &reqs[1].command {
        CxxrtlCommand::ReferenceItems { reference, items } => {
            assert_eq!(reference, "ALL_VARIABLES");
            assert_eq!(
                items,
                &vec![vec!["top a".to_string()], vec!["top b".to_string()], vec!["top d".to_string()]]
            );
        }
        _ => panic!("expected a reference command"),
    }
}

fn ready_container() -> CxxrtlContainer {
    let mut c = CxxrtlContainer::new();
    let r0 = var(&["top", "cpu"], "r0");
    let data = var(&["top", "mem"], "data");
    c.load_variables(&vec![r0, data]);
    assert!(c.query_variable(&var(&["top", "cpu"], "r0"), &ts(0)).is_none());
    assert_eq!(c.variable_meta(&var(&["top", "cpu"], "r0")).num_bits, None);
    answer_all(&mut c, |cmd| match cmd {
        CxxrtlCommand::GetSimulationStatus => CommandResponse::GetSimulationStatus(CxxrtlSimulationStatus {
            status: SimulationStatusType::Paused,
            latest_time: ts(100),
        }),
        CxxrtlCommand::ListItems { .. } => items_response(),
        _ => CommandResponse::ReferenceItems,
    });
    c
}

#[test]
fn point_query_returns_latest_sample() {
    let mut c = ready_container();
    let r0 = var(&["top", "cpu"], "r0");
    let data = var(&["top", "mem"], "data");
    let first = c.query_variable(&r0, &ts(10)).expect("all that a query needs is known");
    assert!(first.current.is_none());
    let reqs = c.take_requests();
    assert_eq!(reqs.len(), 1);
    match &reqs[0].command {
        CxxrtlCommand::QueryInterval { start, end, collapse, items, .. } => {
            assert_eq!(*start, CxxrtlTimestamp::zero());
            assert_eq!(*end, ts(100));
            assert!(*collapse);
            assert_eq!(items.as_deref(), Some("ALL_VARIABLES"));
        }
        _ => panic!("expected an interval query"),
    }
    let samples = vec![
        Sample { time: ts(10), item_values: vec![1, 0xAAAA] },
        Sample { time: ts(20), item_values: vec![2, 0xBBBB] },
        Sample { time: ts(40), item_values: vec![3, 0xCCCC] },
    ];
    for r in reqs {
        assert!(c.apply_response(r.op, CommandResponse::QueryInterval { samples: samples.clone() }));
    }
    assert_eq!(c.max_displayed_timestamp(), Some(ts(100)));
    let at = |c: &mut CxxrtlContainer, v: &VariableRef, t: u128| {
        c.query_variable(v, &ts(t)).unwrap().current.map(|(time, value)| (time.femtoseconds, value))
    };
    assert_eq!(at(&mut c, &r0, 5), None);
    assert_eq!(at(&mut c, &r0, 10), Some((10, vec![1])));
    assert_eq!(at(&mut c, &r0, 15), Some((10, vec![1])));
    assert_eq!(at(&mut c, &r0, 20), Some((20, vec![2])));
    assert_eq!(at(&mut c, &r0, 1000), Some((40, vec![3])));
    assert_eq!(at(&mut c, &data, 39), Some((20, vec![0xBBBB])));
    assert_eq!(at(&mut c, &var(&["top"], "x"), 39), None);
    assert!(c.take_requests().is_empty());
}

#[test]
fn status_update_invalidates_the_query_window() {
    let mut c = ready_container();
    let r0 = var(&["top", "cpu"], "r0");
    c.query_variable(&r0, &ts(10));
    for r in c.take_requests() {
        let samples = vec![Sample { time: ts(10), item_values: vec![1, 2] }];
        assert!(c.apply_response(r.op, CommandResponse::QueryInterval { samples }));
    }
    c.pause();
    for r in c.take_requests() {
        assert!(c.apply_response(r.op, CommandResponse::PauseSimulation { time: ts(300) }));
    }
    assert!(c.data.query_result.is_uncached());
    assert_eq!(c.max_displayed_timestamp(), Some(ts(100)));
    let stale = c.query_variable(&r0, &ts(10)).unwrap();
    assert_eq!(stale.current.map(|(t, v)| (t.femtoseconds, v)), Some((10, vec![1])));
    let reqs = c.take_requests();
    assert_eq!(reqs.len(), 1);
    assert!(matches!(reqs[0].command, CxxrtlCommand::QueryInterval { end, .. } if end == ts(300)));
}

#[test]
fn query_needs_loaded_signals() {
    let mut c = CxxrtlContainer::new();
    answer_all(&mut c, |_| CommandResponse::ReferenceItems);
    c.max_timestamp();
    c.variable_meta(&var(&["top"], "a"));
    answer_all(&mut c, |cmd| match cmd {
        CxxrtlCommand::GetSimulationStatus => CommandResponse::GetSimulationStatus(CxxrtlSimulationStatus {
            status: SimulationStatusType::Finished,
            latest_time: ts(9),
        }),
        _ => items_response(),
    });
    assert!(c.query_variable(&var(&["top", "cpu"], "r0"), &ts(1)).is_none());
    assert_eq!(c.simulation_status(), Some(SimulationStatusType::Finished));
}

#[test]
fn frames_end_at_nul() {
    let mut w = CxxrtlWorker::new();
    w.on_bytes(b"{\"a\":1}\0{\"b\"");
    assert_eq!(w.next_frame(), Some(b"{\"a\":1}".to_vec()));
    assert_eq!(w.next_frame(), None);
    assert_eq!(w.read_buf, b"{\"b\"".to_vec());
    w.on_bytes(b":2}\0");
    assert_eq!(w.next_frame(), Some(b"{\"b\":2}".to_vec()));
    assert!(w.read_buf.is_empty());
}

#[test]
fn unknown_width_stops_decoding_later_signals() {
    let mut c = CxxrtlContainer::new();
    let a = var(&["top"], "a");
    let unknown = var(&["top"], "u");
    let b = var(&["top"], "b");
    c.load_variables(&vec![a.clone(), unknown.clone(), b.clone()]);
    c.query_variable(&a, &ts(0));
    c.variable_meta(&a);
    answer_all(&mut c, |cmd| match cmd {
        CxxrtlCommand::GetSimulationStatus => CommandResponse::GetSimulationStatus(CxxrtlSimulationStatus {
            status: SimulationStatusType::Paused,
            latest_time: ts(50),
        }),
        CxxrtlCommand::ListItems { .. } => CommandResponse::ListItems {
            items: vec![
                ("top a".to_string(), CxxrtlItem { width: 40 }),
                ("top b".to_string(), CxxrtlItem { width: 1 }),
            ],
        },
        _ => CommandResponse::ReferenceItems,
    });
    c.query_variable(&a, &ts(0));
    answer_all(&mut c, |_| CommandResponse::QueryInterval {
        samples: vec![Sample { time: ts(0), item_values: vec![7, 8, 9, 1] }],
    });
    let value = |c: &mut CxxrtlContainer, v: &VariableRef| c.query_variable(v, &ts(0)).unwrap().current.map(|(_, w)| w);
    assert_eq!(value(&mut c, &a), Some(vec![7, 8]));
    assert_eq!(value(&mut c, &unknown), None);
    assert_eq!(value(&mut c, &b), None);
}


#[test]
fn answers_of_the_wrong_kind_are_dropped() {
    let mut c = CxxrtlContainer::new();
    c.unpause();
    let reqs = c.take_requests();
    let mut ops = reqs.into_iter().map(|r| r.op);
    let poll = ops.next().unwrap();
    let run = ops.next().unwrap();
    assert!(!c.apply_response(poll, CommandResponse::ReferenceItems));
    assert!(!c.apply_response(run, CommandResponse::ReferenceItems));
    c.load_variables(&vec![var(&["top"], "a")]);
    let op = c.take_requests().into_iter().next().unwrap().op;
    assert!(!c.apply_response(op, CommandResponse::RunSimulation));
}

#[test]
fn scope_listing_keeps_each_scope_once() {
    let mut c = CxxrtlContainer::new();
    c.modules();
    let op = c.take_requests().into_iter().next().unwrap().op;
    let names = vec!["top".to_string(), "".to_string(), "top cpu".to_string(), "top".to_string()];
    assert!(c.apply_response(op, CommandResponse::ListScopes { scopes: names }));
    assert_eq!(c.modules(), vec![scope(&["top"]), ScopeRef::root(), scope(&["top", "cpu"])]);
    assert_eq!(c.child_scopes(&ScopeRef::root()), vec![scope(&["top"])]);
}

#[test]
fn unreadable_answer_uses_up_its_request() {
    let mut c = CxxrtlContainer::new();
    let mut w = CxxrtlWorker::new();
    c.modules();
    c.pause();
    for r in c.take_requests() {
        w.on_command_sent(r.op);
    }
    assert!(w.discard_oldest());
    let outcome = w.on_response(&mut c, CommandResponse::PauseSimulation { time: ts(7) });
    assert_eq!(outcome, Dispatch::Applied);
    assert_eq!(c.max_timestamp(), Some(ts(7)));
    assert!(!w.discard_oldest());
}
