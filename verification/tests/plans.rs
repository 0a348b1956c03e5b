//! EXPLAIN, the log, and the shell.

use trondb::display::{format_grpc_response, format_result, format_value, printed, printed_remote, row_cells, stats_line, Cell, RemoteStats};
use trondb::fetch::{FetchPlan, FetchStrategy};
use trondb::fields::FieldMap;
use trondb::filter::WhereClause;
use trondb::journal::{effects, records, steps, Statement, Step};
use trondb::location::{LocState, Tier};
use trondb::plan::{
    collection_size, explain_answer, explain_plan, plan_collection_name, DropPlan, Plan, PlanNotes,
};
use trondb::replay::{
    is_control, must_forget, records_after, replay_step, vectors_to_catch_up, wal_records_since, RecordType,
    ReplayAction, Restored, WalRecord,
};
use trondb::result::{message_result, QueryMode};
use trondb::rows::{FieldList, OrderByClause, Row, SortDirection};
use trondb::search::{PreFilter, SearchPlan, SearchStrategy};
use trondb::shell::{data_dir_argument, dot_command, trim, DotCommand, Shell, ShellAction};
use trondb::types::{Entity, ReprState, ReprType, Representation, VectorData};
use trondb::value::{Literal, LogicalId, Value};

fn text(s: &str) -> Value {
    Value::String(s.to_string())
}

fn property(rows: &[Row], name: &str) -> Value {
    rows.iter()
        .find(|r| r.values.get("property") == Some(&text(name)))
        .unwrap_or_else(|| panic!("should have '{name}' property"))
        .values
        .get("value")
        .unwrap()
        .clone()
}

fn fetch(strategy: FetchStrategy, hints: Vec<String>) -> FetchPlan {
    FetchPlan {
        collection: "venues".into(),
        fields: FieldList::All,
        filter: Some(WhereClause::Eq("city".into(), Literal::String("London".into()))),
        order_by: vec![],
        limit: None,
        strategy,
        hints,
    }
}

fn search() -> SearchPlan {
    SearchPlan {
        collection: "venues".into(),
        fields: FieldList::All,
        dense_vector: Some(vec![1.0f32.to_bits(), 0, 0]),
        sparse_vector: None,
        pre_filter: None,
        k: 5,
        confidence_threshold: 0.8f64.to_bits(),
        confidence_shown: "0.8".into(),
        strategy: SearchStrategy::Hnsw,
        query_text: None,
        using_repr: None,
        hints: vec![],
        two_pass: None,
    }
}

#[test]
fn execute_explain() {
    let rows = explain_plan(&Plan::Fetch(fetch(FetchStrategy::FullScan, vec![])));
    assert!(!rows.is_empty());
    assert_eq!(property(&rows, "mode"), text("Deterministic"));
}

#[test]
fn explain_shows_search_strategy() {
    let rows = explain_plan(&Plan::Search(search()));
    assert_eq!(property(&rows, "strategy"), text("HnswSearch"));
    assert_eq!(property(&rows, "mode"), text("Probabilistic"));
    assert_eq!(property(&rows, "k"), text("5"));
    assert_eq!(property(&rows, "confidence_threshold"), text("0.8"));
}

#[test]
fn explain_shows_fetch_field_index_strategy() {
    let rows = explain_plan(&Plan::Fetch(fetch(FetchStrategy::FieldIndexLookup("idx_city".into()), vec![])));
    assert_eq!(property(&rows, "strategy"), text("FieldIndexLookup (idx_city)"));
    assert_eq!(property(&rows, "tier"), text("FieldIndex"));
}

#[test]
fn explain_shows_prefilter() {
    let mut p = search();
    p.pre_filter = Some(PreFilter {
        index_name: "idx_city".into(),
        clause: WhereClause::Eq("city".into(), Literal::String("London".into())),
    });
    assert_eq!(property(&explain_plan(&Plan::Search(p)), "pre_filter"), text("ScalarPreFilter (idx_city)"));
}

#[test]
fn explain_shows_force_full_scan_hint() {
    let rows = explain_plan(&Plan::Fetch(fetch(FetchStrategy::FullScan, vec!["ForceFullScan".into()])));
    assert_eq!(property(&rows, "strategy"), text("FullScan"));
    assert_eq!(property(&rows, "hints"), text("ForceFullScan"));
}

#[test]
fn explain_shows_order_and_limit() {
    let mut p = fetch(FetchStrategy::FullScan, vec![]);
    p.order_by = vec![
        OrderByClause { field: "a".into(), direction: SortDirection::Asc },
        OrderByClause { field: "b".into(), direction: SortDirection::Desc },
    ];
    p.limit = Some(7);
    let rows = explain_plan(&Plan::Fetch(p));
    assert_eq!(property(&rows, "order_by"), text("a ASC, b DESC"));
    assert_eq!(property(&rows, "limit"), text("7"));
}

#[test]
fn explain_adds_notes() {
    let notes = PlanNotes {
        estimated_acu: "50.0".into(),
        cost_breakdown: "1x search_hnsw @ 50.0 = 50.0".into(),
        rules_applied: vec![],
        warnings: vec![],
    };
    let r = explain_answer(&Plan::Search(search()), &notes);
    assert_eq!(r.columns, vec!["property", "value"]);
    assert_eq!(property(&r.rows, "estimated_acu"), text("50.0"));
    assert_eq!(property(&r.rows, "cost_breakdown"), text("1x search_hnsw @ 50.0 = 50.0"));
}

#[test]
fn plans_name_their_collection() {
    assert_eq!(plan_collection_name(&Plan::Search(search())), Some("venues"));
    assert_eq!(plan_collection_name(&Plan::DropEdgeType(DropPlan { name: "x".into() })), None);
    let keys = vec!["a:x".to_string(), "venues:d".to_string()];
    assert_eq!(collection_size(&keys, &vec![3, 9], "venues", 100), 9);
    assert_eq!(collection_size(&keys, &vec![3, 9], "none", 100), 100);
}

#[test]
fn statements_are_logged_first() {
    assert_eq!(
        records(&Statement::Insert(2)),
        vec![RecordType::EntityWrite, RecordType::LocationUpdate, RecordType::LocationUpdate]
    );
    assert_eq!(
        effects(&Statement::Recompute(4)),
        vec![ReplayAction::StoreEntity, ReplayAction::Transition(4, LocState::Clean)]
    );
    assert_eq!(
        steps(&Statement::DeleteEdge),
        vec![
            Step::Begin,
            Step::Append(RecordType::EdgeDelete),
            Step::Commit,
            Step::Apply(ReplayAction::DeleteEdge),
        ]
    );
}

#[test]
fn records_are_replayed() {
    let dirty = replay_step(RecordType::ReprDirty, true, 1, &vec![Some(LocState::Clean)]);
    assert_eq!(dirty.actions, vec![ReplayAction::Transition(1, LocState::Dirty)]);
    assert!(replay_step(RecordType::ReprDirty, true, 1, &vec![None]).actions.is_empty());
    let write = replay_step(RecordType::ReprWrite, true, 0, &vec![Some(LocState::Recomputing)]);
    assert_eq!(
        write.actions,
        vec![
            ReplayAction::TrackEntity,
            ReplayAction::StoreEntity,
            ReplayAction::Transition(0, LocState::Clean),
        ]
    );
    let from_dirty = replay_step(RecordType::ReprWrite, false, 0, &vec![Some(LocState::Dirty)]);
    assert_eq!(
        from_dirty.actions,
        vec![
            ReplayAction::TrackEntity,
            ReplayAction::Transition(0, LocState::Recomputing),
            ReplayAction::Transition(0, LocState::Clean),
        ]
    );
    let gone = replay_step(RecordType::EntityDelete, false, 0, &vec![]);
    assert_eq!(gone.actions[0], ReplayAction::DeleteFromTier(Tier::NVMe));
    assert!(!replay_step(RecordType::Foreign, true, 0, &vec![]).handled);
    assert!(is_control(RecordType::TxCommit));
    assert!(!is_control(RecordType::EdgeWrite));
}

fn record(lsn: u64, record_type: RecordType) -> WalRecord {
    WalRecord { lsn, ts: 0, tx_id: 1, record_type, schema_ver: 1, collection: "venues".into(), payload: vec![] }
}

#[test]
fn the_log_is_read_from_a_point() {
    let log = vec![
        record(1, RecordType::TxBegin),
        record(2, RecordType::EntityWrite),
        record(3, RecordType::TxCommit),
        record(4, RecordType::EdgeWrite),
    ];
    let lsns: Vec<u64> = records_after(&log, 2).iter().map(|r| r.lsn).collect();
    assert_eq!(lsns, vec![3, 4]);
    let since: Vec<u64> = wal_records_since(&log, 1).iter().map(|r| r.lsn).collect();
    assert!(since.contains(&2) && since.contains(&4));
}

#[test]
fn restored_indexes_catch_up() {
    let mut e = Entity::new(LogicalId::from_string("v1"));
    e.representations.push(Representation {
        name: "default".into(),
        repr_type: ReprType::Atomic,
        fields: vec![],
        vector: VectorData::Dense(vec![0]),
        recipe_hash: [0; 32],
        state: ReprState::Clean,
        computed_at: 0,
        model_version: String::new(),
    });
    let restored = vec![Restored { key: "venues:default".into(), lsn: 10 }];
    assert_eq!(vectors_to_catch_up(&restored, &e, "venues", 11), vec![0]);
    assert!(vectors_to_catch_up(&restored, &e, "venues", 10).is_empty());
    assert!(must_forget(&restored[0], "venues", 11));
    assert!(!must_forget(&restored[0], "venues", 10));
    assert!(!must_forget(&restored[0], "people", 11));
}

#[test]
fn the_shell_reads_statements() {
    let mut shell = Shell::new();
    assert_eq!(shell.prompt(), "trondb> ");
    match shell.feed(".help") {
        ShellAction::Command(c) => assert_eq!(c, DotCommand::Help),
        other => panic!("{other:?}"),
    }
    assert!(matches!(shell.feed("FETCH *"), ShellAction::ReadOn));
    assert_ne!(shell.prompt(), "trondb> ");
    match shell.feed("FROM venues;") {
        ShellAction::Run(s) => assert!(s.contains("FETCH *") && s.contains("FROM venues;")),
        other => panic!("{other:?}"),
    }
    assert_eq!(shell.prompt(), "trondb> ");
    shell.feed("FETCH");
    shell.clear();
    assert_eq!(shell.prompt(), "trondb> ");
    match shell.feed("\t .data \u{2003}\r\n") {
        ShellAction::Command(c) => assert_eq!(c, DotCommand::Data),
        other => panic!("{other:?}"),
    }
    assert!(matches!(shell.feed("  \t"), ShellAction::ReadOn));
    match shell.feed("\tFETCH * FROM venues;\u{a0}\n") {
        ShellAction::Run(s) => assert_eq!(s, "FETCH * FROM venues;"),
        other => panic!("{other:?}"),
    }
    for c in (0..=0x10FFFFu32).filter_map(char::from_u32) {
        assert_eq!(trim(&format!("{c}a{c}")), format!("{c}a{c}").trim(), "{c:?}");
    }
    assert_eq!(dot_command(".exit"), DotCommand::Quit);
    assert_eq!(dot_command(".nope"), DotCommand::Unknown);
    let args = |a: &[&str]| a.iter().map(|s| s.to_string()).collect::<Vec<String>>();
    assert_eq!(data_dir_argument(&args(&["trondb", "--data-dir", "/tmp/x"])), Some("/tmp/x".to_string()));
    assert_eq!(data_dir_argument(&args(&["trondb", "--data-dir"])), None);
    assert_eq!(data_dir_argument(&args(&["trondb"])), None);
}

#[test]
fn answers_are_printed() {
    let r = message_result("result", "done".to_string(), "Fjall");
    assert_eq!(stats_line(&r, "1.50"), "1 row(s) | 0 scanned | deterministic | Fjall | 1.50ms");
    assert_eq!(printed("T", &r, "1.50"), "T\n1 row(s) | 0 scanned | deterministic | Fjall | 1.50ms");
    assert_eq!(r.mode, QueryMode::Deterministic);
    assert!(matches!(format_value(&Value::Float(1.5f64.to_bits())), Cell::Double(b) if b == 1.5f64.to_bits()));
    match format_value(&Value::Int(-3)) {
        Cell::Text(s) => assert_eq!(s, "-3"),
        other => panic!("{other:?}"),
    }
    let mut values = FieldMap::new();
    values.insert("a".to_string(), Value::Bool(true));
    let row = Row { values, score: Some(0.5f32.to_bits()) };
    let cells = row_cells(&vec!["a".to_string(), "b".to_string(), "_score".to_string()], &row);
    assert!(matches!(&cells[0], Cell::Text(s) if s == "true"));
    assert!(matches!(&cells[1], Cell::Text(_)));
    assert!(matches!(&cells[2], Cell::Score(_)));
    let stats = Some(RemoteStats { entities_scanned: 4, millis: "2.00".into() });
    assert!(printed_remote("T", 2, 3, &stats).starts_with("T\n3 row(s)"));
    assert!(!printed_remote("T", 0, 0, &None).contains('T'));
    let shown = format_result(&r, &vec![vec!["unused".to_string()]], "1.50");
    assert!(shown.contains("result") && shown.contains("done") && !shown.contains("unused"));
    assert!(shown.ends_with("\n1 row(s) | 0 scanned | deterministic | Fjall | 1.50ms"));
    assert_eq!(format_grpc_response(&vec![], &vec![], &vec![], &stats), "OK | 2.00ms");
    let columns = vec!["a".to_string(), "b".to_string(), "_score".to_string()];
    let numbers = vec![vec!["x".to_string(), "y".to_string(), "0.5000".to_string()]];
    let remote = format_grpc_response(&columns, &vec![row], &numbers, &stats);
    assert!(remote.contains("true") && remote.contains("0.5000"));
    assert!(!remote.contains('x') && !remote.contains('y'));
    assert!(remote.ends_with("\n1 row(s) | 4 scanned | 2.00ms"));
}
