use data_pipeline::aggregate::{Aggregator, AggregateRecord};
use data_pipeline::graph::{GraphError, GraphStore};
use data_pipeline::scheduler::{sync_records, SyncPlan};

#[test]
fn list_on_empty_store_is_empty() {
    let store = GraphStore::new();
    let names = store.list_projects().expect("listing must not fail");
    assert!(names.is_empty());
}

#[test]
fn delete_unknown_project_is_not_found() {
    let mut store = GraphStore::new();
    store.create_project(String::from("kept")).unwrap();
    let before = store.list_projects().unwrap();
    let res = store.delete_project(&String::from("missing"));
    assert_eq!(res, Err(GraphError::NotFound));
    let after = store.list_projects().unwrap();
    assert_eq!(before, after);
}

#[test]
fn project_lifecycle_scenario() {
    let mut store = GraphStore::new();
    store.create_project(String::from("X")).unwrap();
    store
        .upsert_relationship(
            &String::from("X"),
            &String::from("u1"),
            &String::from("u2"),
            500,
            3,
        )
        .unwrap();
    let names = store.list_projects().unwrap();
    assert!(names.iter().any(|n| n == "X"));
    store.delete_project(&String::from("X")).unwrap();
    let names = store.list_projects().unwrap();
    assert!(!names.iter().any(|n| n == "X"));
}

#[test]
fn upsert_overwrites_instead_of_duplicating() {
    let mut store = GraphStore::new();
    store.create_project(String::from("p")).unwrap();
    store
        .upsert_relationship(
            &String::from("p"),
            &String::from("u1"),
            &String::from("u2"),
            500,
            3,
        )
        .unwrap();
    store
        .upsert_relationship(
            &String::from("p"),
            &String::from("u2"),
            &String::from("u1"),
            -250,
            7,
        )
        .unwrap();
    assert_eq!(store.projects.len(), 1);
    let p = &store.projects[0];
    assert_eq!(p.users.len(), 2);
    assert_eq!(p.edges.len(), 1);
    assert_eq!(p.edges[0].sentiment_milli, -250);
    assert_eq!(p.edges[0].emails_sent, 7);
}

#[test]
fn create_project_is_not_idempotent() {
    let mut store = GraphStore::new();
    store.create_project(String::from("dup")).unwrap();
    store.create_project(String::from("dup")).unwrap();
    let names = store.list_projects().unwrap();
    assert_eq!(names.len(), 2);
    assert_eq!(names[0], "dup");
    assert_eq!(names[1], "dup");
}

#[test]
fn sync_records_writes_every_record() {
    let mut agg = Aggregator::new();
    agg.add_observation(String::from("a"), String::from("b"), 800);
    agg.add_observation(String::from("b"), String::from("a"), 400);
    agg.add_observation(String::from("a"), String::from("c"), -200);
    let recs: Vec<AggregateRecord> = agg.finalize();
    let mut store = GraphStore::new();
    let written = sync_records(&mut store, &String::from("run"), &recs).unwrap();
    assert_eq!(written, 2);
    assert_eq!(store.projects.len(), 1);
    let p = &store.projects[0];
    assert_eq!(p.name, "run");
    assert_eq!(p.edges.len(), 2);
    assert_eq!(p.users.len(), 3);
    assert_eq!(p.edges[0].sentiment_milli, 600);
    assert_eq!(p.edges[0].emails_sent, 2);
    assert_eq!(p.edges[1].sentiment_milli, -200);
    assert_eq!(p.edges[1].emails_sent, 1);
}

#[test]
fn sync_plan_requests_in_order_and_stops_on_failure() {
    let mut plan = SyncPlan::new(3);
    assert_eq!(plan.next_index(), Some(0));
    plan.record_success();
    assert_eq!(plan.completed(), 1);
    assert_eq!(plan.next_index(), Some(1));
    plan.record_failure();
    assert_eq!(plan.next_index(), None);
    assert_eq!(plan.completed(), 1);
}

#[test]
fn sync_plan_finishes_after_all_records() {
    let mut plan = SyncPlan::new(2);
    plan.record_success();
    plan.record_success();
    assert_eq!(plan.next_index(), None);
    assert_eq!(plan.completed(), 2);
}

#[test]
fn graph_error_descriptions() {
    assert_eq!(
        GraphError::Connection.describe(),
        "Could not connect to database. Is your .env okay?"
    );
    assert_eq!(
        GraphError::NotFound.describe(),
        "Graph with that name does not exist"
    );
}
