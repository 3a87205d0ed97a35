use fnv::FnvHashSet;
use shard_controller::allocator::{place_shards, LeaderLoad};
use shard_controller::autoscaler::{
    decide_scaling, find_scale_down_candidate, ScalingDecision, ScalingStep,
};
use shard_controller::controller::IngestController;
use shard_controller::initializer::{collect_init_shards, InitShardsOutcome};
use shard_controller::messages::{
    GetOrCreateOpenShardsFailureReason, GetOrCreateOpenShardsRequest,
    GetOrCreateOpenShardsSubrequest, InitShardFailure, InitShardsResponse, LocalShardsUpdate,
    OpenShardSubresponse, ShardIds, ShardPKey, SubrequestShard,
};
use shard_controller::minting::{mint_shard_id, shard_id_from_u64, shard_id_from_ulid};
use shard_controller::model::ControlPlaneModel;
use shard_controller::names::{compare_names, same_name, NameOrder};
use shard_controller::node_set::node_set_of;
use shard_controller::pool::IngesterPool;
use shard_controller::rebalancer::{
    collect_closed_shards, CloseShardsOutcome, PendingClose, RebalanceShardsCallback,
};
use shard_controller::reconciler::summarize_shard_ids;
use shard_controller::shard_table::{ScalingMode, ShardEntry, ShardInfo, ShardStats};
use shard_controller::types::{IndexUid, NodeId, Position, Shard, ShardId, ShardState, SourceUid};

fn source_uid_for_test(index_id: &str, source_id: &str) -> SourceUid {
    SourceUid { index_uid: IndexUid::new(index_id, 0), source_id: source_id.to_string() }
}

fn shard_for_test(
    source_uid: &SourceUid,
    shard_id: u64,
    shard_state: ShardState,
    leader_id: &str,
) -> Shard {
    Shard {
        source_uid: source_uid.clone(),
        shard_id: shard_id_from_u64(shard_id),
        shard_state,
        leader_id: leader_id.to_string(),
        follower_id: None,
        publish_position_inclusive: Position::Beginning,
    }
}

fn controller_for_test(ingesters: &[&str], replication_factor: usize) -> IngestController {
    let mut ingester_pool = IngesterPool::new();
    for ingester in ingesters {
        ingester_pool.insert(ingester.to_string());
    }
    IngestController::new(ingester_pool, replication_factor)
}

fn find_shard(model: &ControlPlaneModel, shard_id: u64) -> ShardEntry {
    let shard_id = shard_id_from_u64(shard_id);
    for entry in model.all_shards() {
        if entry.shard.shard_id == shard_id {
            return entry.clone();
        }
    }
    panic!("the model holds no shard {}", shard_id);
}

#[test]
fn test_ingest_controller_allocate_shards() {
    let replication_factor = 2;
    let mut ingest_controller = controller_for_test(&[], replication_factor);

    let mut model = ControlPlaneModel::new();

    let leader_follower_pairs_opt =
        ingest_controller.allocate_shards(0, &FnvHashSet::default(), &model);
    assert!(leader_follower_pairs_opt.is_none());

    ingest_controller.add_ingester("test-ingester-1".into());

    let leader_follower_pairs_opt =
        ingest_controller.allocate_shards(0, &FnvHashSet::default(), &model);
    assert!(leader_follower_pairs_opt.is_none());

    ingest_controller.add_ingester("test-ingester-2".into());

    let leader_follower_pairs = ingest_controller
        .allocate_shards(0, &FnvHashSet::default(), &model)
        .unwrap();
    assert!(leader_follower_pairs.is_empty());

    let leader_follower_pairs = ingest_controller
        .allocate_shards(1, &FnvHashSet::default(), &model)
        .unwrap();
    assert_eq!(leader_follower_pairs.len(), 1);
    assert_eq!(leader_follower_pairs[0].0, "test-ingester-1");
    assert_eq!(
        leader_follower_pairs[0].1,
        Some(NodeId::from("test-ingester-2"))
    );

    let leader_follower_pairs = ingest_controller
        .allocate_shards(2, &FnvHashSet::default(), &model)
        .unwrap();
    assert_eq!(leader_follower_pairs.len(), 2);
    assert_eq!(leader_follower_pairs[0].0, "test-ingester-1");
    assert_eq!(
        leader_follower_pairs[0].1,
        Some(NodeId::from("test-ingester-2"))
    );

    assert_eq!(leader_follower_pairs[1].0, "test-ingester-2");
    assert_eq!(
        leader_follower_pairs[1].1,
        Some(NodeId::from("test-ingester-1"))
    );

    let leader_follower_pairs = ingest_controller
        .allocate_shards(3, &FnvHashSet::default(), &model)
        .unwrap();
    assert_eq!(leader_follower_pairs.len(), 3);
    assert_eq!(leader_follower_pairs[0].0, "test-ingester-1");
    assert_eq!(
        leader_follower_pairs[0].1,
        Some(NodeId::from("test-ingester-2"))
    );

    assert_eq!(leader_follower_pairs[1].0, "test-ingester-2");
    assert_eq!(
        leader_follower_pairs[1].1,
        Some(NodeId::from("test-ingester-1"))
    );

    assert_eq!(leader_follower_pairs[2].0, "test-ingester-1");
    assert_eq!(
        leader_follower_pairs[2].1,
        Some(NodeId::from("test-ingester-2"))
    );

    let source_uid = source_uid_for_test("test-index", "test-source");
    let open_shards = vec![shard_for_test(&source_uid, 1, ShardState::Open, "test-ingester-1")];
    model.insert_shards(&source_uid, open_shards);

    let leader_follower_pairs = ingest_controller
        .allocate_shards(3, &FnvHashSet::default(), &model)
        .unwrap();
    assert_eq!(leader_follower_pairs.len(), 3);
    assert_eq!(leader_follower_pairs[0].0, "test-ingester-1");
    assert_eq!(
        leader_follower_pairs[0].1,
        Some(NodeId::from("test-ingester-2"))
    );

    assert_eq!(leader_follower_pairs[1].0, "test-ingester-2");
    assert_eq!(
        leader_follower_pairs[1].1,
        Some(NodeId::from("test-ingester-1"))
    );

    assert_eq!(leader_follower_pairs[2].0, "test-ingester-2");
    assert_eq!(
        leader_follower_pairs[2].1,
        Some(NodeId::from("test-ingester-1"))
    );

    let open_shards = vec![
        shard_for_test(&source_uid, 2, ShardState::Open, "test-ingester-1"),
        shard_for_test(&source_uid, 3, ShardState::Open, "test-ingester-1"),
    ];
    model.insert_shards(&source_uid, open_shards);

    let leader_follower_pairs = ingest_controller
        .allocate_shards(1, &FnvHashSet::default(), &model)
        .unwrap();
    assert_eq!(leader_follower_pairs.len(), 1);
    assert_eq!(leader_follower_pairs[0].0, "test-ingester-2");
    assert_eq!(
        leader_follower_pairs[0].1,
        Some(NodeId::from("test-ingester-1"))
    );

    ingest_controller.add_ingester("test-ingester-3".into());
    let unavailable_leaders = FnvHashSet::from_iter([NodeId::from("test-ingester-2")]);
    let leader_follower_pairs = ingest_controller
        .allocate_shards(4, &unavailable_leaders, &model)
        .unwrap();
    assert_eq!(leader_follower_pairs.len(), 4);
    assert_eq!(leader_follower_pairs[0].0, "test-ingester-3");
    assert_eq!(
        leader_follower_pairs[0].1,
        Some(NodeId::from("test-ingester-1"))
    );

    assert_eq!(leader_follower_pairs[1].0, "test-ingester-3");
    assert_eq!(
        leader_follower_pairs[1].1,
        Some(NodeId::from("test-ingester-1"))
    );

    assert_eq!(leader_follower_pairs[2].0, "test-ingester-3");
    assert_eq!(
        leader_follower_pairs[2].1,
        Some(NodeId::from("test-ingester-1"))
    );

    assert_eq!(leader_follower_pairs[3].0, "test-ingester-1");
    assert_eq!(
        leader_follower_pairs[3].1,
        Some(NodeId::from("test-ingester-3"))
    );
}

#[test]
fn test_find_scale_down_candidate() {
    let source_uid = source_uid_for_test("test-index", "test-source");
    let mut model = ControlPlaneModel::new();

    assert!(find_scale_down_candidate(&source_uid, &model).is_none());

    let shards = vec![
        shard_for_test(&source_uid, 1, ShardState::Open, "test-ingester-0"),
        shard_for_test(&source_uid, 2, ShardState::Open, "test-ingester-0"),
        shard_for_test(&source_uid, 3, ShardState::Closed, "test-ingester-0"),
        shard_for_test(&source_uid, 4, ShardState::Open, "test-ingester-1"),
        shard_for_test(&source_uid, 5, ShardState::Open, "test-ingester-1"),
        shard_for_test(&source_uid, 6, ShardState::Open, "test-ingester-1"),
    ];
    model.insert_shards(&source_uid, shards);

    let shard_infos = vec![
        ShardInfo {
            shard_id: shard_id_from_u64(1),
            shard_state: ShardState::Open,
            ingestion_rate: 1,
        },
        ShardInfo {
            shard_id: shard_id_from_u64(2),
            shard_state: ShardState::Open,
            ingestion_rate: 2,
        },
        ShardInfo {
            shard_id: shard_id_from_u64(3),
            shard_state: ShardState::Open,
            ingestion_rate: 3,
        },
        ShardInfo {
            shard_id: shard_id_from_u64(4),
            shard_state: ShardState::Open,
            ingestion_rate: 4,
        },
        ShardInfo {
            shard_id: shard_id_from_u64(5),
            shard_state: ShardState::Open,
            ingestion_rate: 5,
        },
        ShardInfo {
            shard_id: shard_id_from_u64(6),
            shard_state: ShardState::Open,
            ingestion_rate: 6,
        },
    ];
    model.update_shards(&source_uid, &shard_infos);

    let (leader_id, shard_id) = find_scale_down_candidate(&source_uid, &model).unwrap();
    assert_eq!(leader_id, "test-ingester-0");
    assert_eq!(shard_id, shard_id_from_u64(2));
}

#[test]
fn test_ingest_controller_get_or_create_open_shards() {
    let source_id: &'static str = "test-source";

    let index_id_0 = "test-index-0";
    let index_uid_0 = IndexUid::new(index_id_0, 0);

    let index_id_1 = "test-index-1";
    let index_uid_1 = IndexUid::new(index_id_1, 1);

    let replication_factor = 2;
    let ingest_controller =
        controller_for_test(&["test-ingester-1", "test-ingester-2"], replication_factor);

    let mut model = ControlPlaneModel::new();
    model.add_index(index_uid_0.clone());
    model.add_index(index_uid_1.clone());

    let source_uid_0 = SourceUid { index_uid: index_uid_0.clone(), source_id: source_id.to_string() };
    let source_uid_1 = SourceUid { index_uid: index_uid_1.clone(), source_id: source_id.to_string() };
    assert!(model.add_source(&source_uid_0));
    assert!(model.add_source(&source_uid_1));

    let shards = vec![
        shard_for_test(&source_uid_0, 1, ShardState::Open, "test-ingester-0"),
        shard_for_test(&source_uid_0, 2, ShardState::Open, "test-ingester-1"),
    ];
    model.insert_shards(&source_uid_0, shards);

    let request = GetOrCreateOpenShardsRequest {
        subrequests: Vec::new(),
        closed_shards: Vec::new(),
        unavailable_leaders: Vec::new(),
    };
    let pending = ingest_controller.start_get_or_create_open_shards(&request, &mut model);
    assert!(pending.is_complete());
    let response =
        ingest_controller.finish_get_or_create_open_shards(pending, &Vec::new(), &mut model);

    assert_eq!(response.successes.len(), 0);
    assert_eq!(response.failures.len(), 0);

    let subrequests = vec![
        GetOrCreateOpenShardsSubrequest {
            subrequest_id: 0,
            index_id: "test-index-0".to_string(),
            source_id: source_id.to_string(),
        },
        GetOrCreateOpenShardsSubrequest {
            subrequest_id: 1,
            index_id: "test-index-1".to_string(),
            source_id: source_id.to_string(),
        },
        GetOrCreateOpenShardsSubrequest {
            subrequest_id: 2,
            index_id: "index-not-found".to_string(),
            source_id: "source-not-found".to_string(),
        },
        GetOrCreateOpenShardsSubrequest {
            subrequest_id: 3,
            index_id: "test-index-0".to_string(),
            source_id: "source-not-found".to_string(),
        },
    ];
    let closed_shards = Vec::new();
    let unavailable_leaders = vec!["test-ingester-0".to_string()];
    let request = GetOrCreateOpenShardsRequest {
        subrequests,
        closed_shards,
        unavailable_leaders,
    };
    let pending = ingest_controller.start_get_or_create_open_shards(&request, &mut model);
    assert!(!pending.is_complete());

    // What the metastore is asked.
    assert_eq!(pending.open_shards_subrequests.len(), 1);
    assert_eq!(pending.open_shards_subrequests[0].subrequest_id, 1);
    assert_eq!(pending.open_shards_subrequests[0].source_uid.index_uid, index_uid_1);
    assert_eq!(&pending.open_shards_subrequests[0].source_uid.source_id, source_id);
    assert_eq!(pending.open_shards_subrequests[0].leader_id, "test-ingester-2");
    assert_eq!(
        pending.open_shards_subrequests[0].follower_id,
        Some("test-ingester-1".to_string())
    );

    // What the metastore answers.
    let subresponses = vec![OpenShardSubresponse {
        subrequest_id: 1,
        shard: shard_for_test(&source_uid_1, 1, ShardState::Open, "test-ingester-2"),
    }];

    // What the leader is asked.
    let plan = ingest_controller.plan_init_shards(&subresponses);
    assert_eq!(plan.failures.len(), 0);
    assert_eq!(plan.requests.len(), 1);
    assert_eq!(plan.requests[0].leader_id, "test-ingester-2");
    assert_eq!(plan.requests[0].subrequests.len(), 1);

    let subrequest = &plan.requests[0].subrequests[0];
    assert_eq!(subrequest.subrequest_id, 1);

    let shard = &subrequest.shard;
    assert_eq!(shard.source_uid.index_uid, index_uid_1);
    assert_eq!(shard.source_uid.source_id, "test-source");
    assert_eq!(shard.shard_id, shard_id_from_u64(1));
    assert_eq!(shard.leader_id, "test-ingester-2");

    // What the leader answers.
    let outcomes = vec![InitShardsOutcome::Completed(InitShardsResponse {
        successes: vec![subrequest.clone()],
        failures: Vec::new(),
    })];
    let init_shards_response = collect_init_shards(plan, &outcomes);

    let response = ingest_controller.finish_get_or_create_open_shards(
        pending,
        &init_shards_response.successes,
        &mut model,
    );

    assert_eq!(response.successes.len(), 2);
    assert_eq!(response.failures.len(), 2);

    let success = &response.successes[0];
    assert_eq!(success.subrequest_id, 0);
    assert_eq!(success.source_uid.index_uid, index_uid_0);
    assert_eq!(success.source_uid.source_id, source_id);
    assert_eq!(success.open_shards.len(), 1);
    assert_eq!(success.open_shards[0].shard_id, shard_id_from_u64(2));
    assert_eq!(success.open_shards[0].leader_id, "test-ingester-1");

    let success = &response.successes[1];
    assert_eq!(success.subrequest_id, 1);
    assert_eq!(success.source_uid.index_uid, index_uid_1);
    assert_eq!(success.source_uid.source_id, source_id);
    assert_eq!(success.open_shards.len(), 1);
    assert_eq!(success.open_shards[0].shard_id, shard_id_from_u64(1));
    assert_eq!(success.open_shards[0].leader_id, "test-ingester-2");

    let failure = &response.failures[0];
    assert_eq!(failure.subrequest_id, 2);
    assert_eq!(failure.index_id, "index-not-found");
    assert_eq!(failure.source_id, "source-not-found");
    assert_eq!(
        failure.reason,
        GetOrCreateOpenShardsFailureReason::IndexNotFound
    );

    let failure = &response.failures[1];
    assert_eq!(failure.subrequest_id, 3);
    assert_eq!(failure.index_id, index_id_0);
    assert_eq!(failure.source_id, "source-not-found");
    assert_eq!(
        failure.reason,
        GetOrCreateOpenShardsFailureReason::SourceNotFound
    );

    assert_eq!(model.num_shards(), 3);
}

#[test]
fn test_ingest_controller_get_open_shards_handles_closed_shards() {
    let replication_factor = 2;
    let ingest_controller = controller_for_test(&[], replication_factor);
    let mut model = ControlPlaneModel::new();

    let source_uid = source_uid_for_test("test-index-0", "test-source");

    let shards = vec![shard_for_test(&source_uid, 1, ShardState::Open, "test-ingester-0")];
    model.insert_shards(&source_uid, shards);

    let request = GetOrCreateOpenShardsRequest {
        subrequests: Vec::new(),
        closed_shards: vec![ShardIds {
            source_uid: source_uid.clone(),
            shard_ids: vec![shard_id_from_u64(1), shard_id_from_u64(2)],
        }],
        unavailable_leaders: Vec::new(),
    };
    let pending = ingest_controller.start_get_or_create_open_shards(&request, &mut model);
    ingest_controller.finish_get_or_create_open_shards(pending, &Vec::new(), &mut model);

    let shard_1 = find_shard(&model, 1);
    assert!(shard_1.is_closed());
}

#[test]
fn test_ingest_controller_get_open_shards_handles_unavailable_leaders() {
    let replication_factor = 2;
    let ingest_controller = controller_for_test(&["test-ingester-1"], replication_factor);
    let mut model = ControlPlaneModel::new();

    let source_uid = source_uid_for_test("test-index-0", "test-source");

    let shards = vec![
        shard_for_test(&source_uid, 1, ShardState::Open, "test-ingester-0"),
        shard_for_test(&source_uid, 2, ShardState::Closed, "test-ingester-0"),
        shard_for_test(&source_uid, 3, ShardState::Open, "test-ingester-1"),
    ];
    model.insert_shards(&source_uid, shards);

    let request = GetOrCreateOpenShardsRequest {
        subrequests: Vec::new(),
        closed_shards: Vec::new(),
        unavailable_leaders: vec!["test-ingester-0".to_string()],
    };
    let pending = ingest_controller.start_get_or_create_open_shards(&request, &mut model);
    ingest_controller.finish_get_or_create_open_shards(pending, &Vec::new(), &mut model);

    let shard_1 = find_shard(&model, 1);
    assert!(shard_1.is_unavailable());

    let shard_2 = find_shard(&model, 2);
    assert!(shard_2.is_closed());

    let shard_3 = find_shard(&model, 3);
    assert!(shard_3.is_open());
}

#[test]
fn test_ingest_controller_init_shards() {
    let replication_factor = 1;
    let ingest_controller = controller_for_test(
        &["test-ingester-0", "test-ingester-1", "test-ingester-2"],
        replication_factor,
    );

    let plan = ingest_controller.plan_init_shards(&Vec::new());
    assert_eq!(plan.requests.len(), 0);
    let init_shards_response = collect_init_shards(plan, &Vec::new());
    assert_eq!(init_shards_response.successes.len(), 0);
    assert_eq!(init_shards_response.failures.len(), 0);

    // In this test:
    // - ingester 0 will initialize shard 0 successfully and fail to initialize shard 1;
    // - ingester 1 will return an error;
    // - ingester 2 will time out;
    // - ingester 3 will be unavailable.

    let source_uid = source_uid_for_test("test-index", "test-source");
    let open_shards_subresponses = vec![
        OpenShardSubresponse {
            subrequest_id: 0,
            shard: shard_for_test(&source_uid, 0, ShardState::Open, "test-ingester-0"),
        },
        OpenShardSubresponse {
            subrequest_id: 1,
            shard: shard_for_test(&source_uid, 1, ShardState::Open, "test-ingester-0"),
        },
        OpenShardSubresponse {
            subrequest_id: 2,
            shard: shard_for_test(&source_uid, 2, ShardState::Open, "test-ingester-1"),
        },
        OpenShardSubresponse {
            subrequest_id: 3,
            shard: shard_for_test(&source_uid, 3, ShardState::Open, "test-ingester-2"),
        },
        OpenShardSubresponse {
            subrequest_id: 4,
            shard: shard_for_test(&source_uid, 4, ShardState::Open, "test-ingester-3"),
        },
    ];
    let plan = ingest_controller.plan_init_shards(&open_shards_subresponses);
    assert_eq!(plan.requests.len(), 3);
    assert_eq!(plan.failures.len(), 1);
    assert_eq!(plan.failures[0].subrequest_id, 4);

    // What ingester 0 is asked.
    let request = &plan.requests[0];
    assert_eq!(request.leader_id, "test-ingester-0");
    assert_eq!(request.subrequests.len(), 2);

    let subrequest_0 = &request.subrequests[0];
    assert_eq!(subrequest_0.subrequest_id, 0);

    let shard_0 = &request.subrequests[0].shard;
    assert_eq!(shard_0.source_uid.index_uid, IndexUid::new("test-index", 0));
    assert_eq!(shard_0.source_uid.source_id, "test-source");
    assert_eq!(shard_0.shard_id, shard_id_from_u64(0));
    assert_eq!(shard_0.leader_id, "test-ingester-0");

    let subrequest_1 = &request.subrequests[1];
    assert_eq!(subrequest_1.subrequest_id, 1);

    let shard_1 = &request.subrequests[1].shard;
    assert_eq!(shard_1.source_uid.index_uid, IndexUid::new("test-index", 0));
    assert_eq!(shard_1.source_uid.source_id, "test-source");
    assert_eq!(shard_1.shard_id, shard_id_from_u64(1));
    assert_eq!(shard_1.leader_id, "test-ingester-0");

    // What ingester 1 is asked.
    let request = &plan.requests[1];
    assert_eq!(request.leader_id, "test-ingester-1");
    assert_eq!(request.subrequests.len(), 1);

    let subrequest = &request.subrequests[0];
    assert_eq!(subrequest.subrequest_id, 2);

    let shard = &request.subrequests[0].shard;
    assert_eq!(shard.source_uid.index_uid, IndexUid::new("test-index", 0));
    assert_eq!(shard.source_uid.source_id, "test-source");
    assert_eq!(shard.shard_id, shard_id_from_u64(2));
    assert_eq!(shard.leader_id, "test-ingester-1");

    // What ingester 2 is asked.
    let request = &plan.requests[2];
    assert_eq!(request.leader_id, "test-ingester-2");
    assert_eq!(request.subrequests.len(), 1);
    assert_eq!(request.subrequests[0].subrequest_id, 3);

    let outcomes = vec![
        InitShardsOutcome::Completed(InitShardsResponse {
            successes: vec![subrequest_0.clone()],
            failures: vec![InitShardFailure {
                subrequest_id: 1,
                source_uid: shard_1.source_uid.clone(),
                shard_id: shard_1.shard_id.clone(),
            }],
        }),
        InitShardsOutcome::Failed,
        InitShardsOutcome::TimedOut,
    ];
    let init_shards_response = collect_init_shards(plan, &outcomes);
    assert_eq!(init_shards_response.successes.len(), 1);
    assert_eq!(init_shards_response.failures.len(), 4);

    let success = &init_shards_response.successes[0];
    assert_eq!(success.subrequest_id, 0);

    let mut failures = init_shards_response.failures;
    failures.sort_by_key(|failure| failure.subrequest_id);

    assert_eq!(failures[0].subrequest_id, 1);
    assert_eq!(failures[1].subrequest_id, 2);
    assert_eq!(failures[2].subrequest_id, 3);
    assert_eq!(failures[3].subrequest_id, 4);
}

#[test]
fn test_ingest_controller_handle_local_shards_update() {
    let replication_factor = 1;
    let mut ingest_controller = controller_for_test(&[], replication_factor);

    let source_uid = source_uid_for_test("test-index", "test-source");
    let mut model = ControlPlaneModel::new();

    let shards = vec![shard_for_test(&source_uid, 1, ShardState::Open, "test-ingester")];
    model.insert_shards(&source_uid, shards);
    let shard_entries: Vec<ShardEntry> = model.all_shards().into_iter().cloned().collect();

    assert_eq!(shard_entries.len(), 1);
    assert_eq!(shard_entries[0].ingestion_rate, 0);

    // Test update shard ingestion rate but no scale down because num open shards is 1.
    let shard_infos = vec![ShardInfo {
        shard_id: shard_id_from_u64(1),
        shard_state: ShardState::Open,
        ingestion_rate: 1,
    }];
    let local_shards_update = LocalShardsUpdate {
        leader_id: "test-ingester".into(),
        source_uid: source_uid.clone(),
        shard_infos,
    };
    let step = ingest_controller.handle_local_shards_update(&local_shards_update, &mut model);
    assert_eq!(step, ScalingStep::Nothing);

    let shard_entries: Vec<ShardEntry> = model.all_shards().into_iter().cloned().collect();
    assert_eq!(shard_entries.len(), 1);
    assert_eq!(shard_entries[0].ingestion_rate, 1);

    // Test update shard ingestion rate with failing scale down.
    let shards = vec![shard_for_test(&source_uid, 2, ShardState::Open, "test-ingester")];
    model.insert_shards(&source_uid, shards);

    let shard_entries: Vec<ShardEntry> = model.all_shards().into_iter().cloned().collect();
    assert_eq!(shard_entries.len(), 2);

    ingest_controller.add_ingester("test-ingester".into());

    let shard_infos = vec![
        ShardInfo {
            shard_id: shard_id_from_u64(1),
            shard_state: ShardState::Open,
            ingestion_rate: 1,
        },
        ShardInfo {
            shard_id: shard_id_from_u64(2),
            shard_state: ShardState::Open,
            ingestion_rate: 1,
        },
    ];
    let local_shards_update = LocalShardsUpdate {
        leader_id: "test-ingester".into(),
        source_uid: source_uid.clone(),
        shard_infos,
    };
    let step = ingest_controller.handle_local_shards_update(&local_shards_update, &mut model);
    match step {
        ScalingStep::CloseShard(leader_id, shard_pkey) => {
            assert_eq!(leader_id, "test-ingester");
            assert_eq!(shard_pkey.source_uid.index_uid, IndexUid::new("test-index", 0));
            assert_eq!(shard_pkey.source_uid.source_id, "test-source");
            // Both shards take in as much: the older one is to be closed.
            assert_eq!(shard_pkey.shard_id, shard_id_from_u64(1));
        }
        other => panic!("expected a shard to close, got {:?}", other),
    }
    // The ingester fails to close the shard.
    ingest_controller.abort_scale_down(&source_uid, &mut model);
    assert!(model.all_shards().iter().all(|shard| shard.is_open()));

    // Test update shard ingestion rate with failing scale up.
    let shard_infos = vec![
        ShardInfo {
            shard_id: shard_id_from_u64(1),
            shard_state: ShardState::Open,
            ingestion_rate: 4,
        },
        ShardInfo {
            shard_id: shard_id_from_u64(2),
            shard_state: ShardState::Open,
            ingestion_rate: 4,
        },
    ];
    let local_shards_update = LocalShardsUpdate {
        leader_id: "test-ingester".into(),
        source_uid: source_uid.clone(),
        shard_infos,
    };
    let step = ingest_controller.handle_local_shards_update(&local_shards_update, &mut model);
    match step {
        ScalingStep::OpenShard(subrequest) => {
            assert_eq!(subrequest.source_uid.index_uid, IndexUid::new("test-index", 0));
            assert_eq!(subrequest.source_uid.source_id, "test-source");
            assert_eq!(subrequest.leader_id, "test-ingester");
        }
        other => panic!("expected a shard to open, got {:?}", other),
    }
    // The metastore fails to open the shard.
    ingest_controller.abort_scale_up(&source_uid, &mut model);
    assert_eq!(model.num_shards(), 2);
}

#[test]
fn test_ingest_controller_try_scale_up_shards() {
    let replication_factor = 1;
    let mut ingest_controller = controller_for_test(&[], replication_factor);

    let index_uid = IndexUid::new("test-index", 0);
    let source_uid = SourceUid { index_uid: index_uid.clone(), source_id: "_ingest-source".to_string() };
    let mut model = ControlPlaneModel::new();
    model.add_index(index_uid.clone());
    assert!(model.add_source(&source_uid));

    // Test could not find leader.
    let subrequest_opt = ingest_controller.try_scale_up_shards(&source_uid, &mut model);
    assert!(subrequest_opt.is_none());

    ingest_controller.add_ingester("test-ingester".into());

    // Test failed to open shards.
    let subrequest = ingest_controller
        .try_scale_up_shards(&source_uid, &mut model)
        .unwrap();
    assert_eq!(subrequest.subrequest_id, 0);
    assert_eq!(subrequest.source_uid.index_uid, index_uid);
    assert_eq!(subrequest.source_uid.source_id, "_ingest-source");
    assert_eq!(subrequest.leader_id, "test-ingester");
    ingest_controller.abort_scale_up(&source_uid, &mut model);
    assert_eq!(model.all_shards().len(), 0);

    // Test failed to init shards.
    let subrequest = ingest_controller
        .try_scale_up_shards(&source_uid, &mut model)
        .unwrap();
    assert_eq!(subrequest.leader_id, "test-ingester");
    let subresponses = vec![OpenShardSubresponse {
        subrequest_id: 0,
        shard: shard_for_test(&source_uid, 1, ShardState::Open, "test-ingester"),
    }];
    let plan = ingest_controller.plan_init_shards(&subresponses);
    assert_eq!(plan.requests.len(), 1);
    assert_eq!(plan.requests[0].subrequests.len(), 1);
    assert_eq!(plan.requests[0].subrequests[0].subrequest_id, 0);
    assert_eq!(plan.requests[0].subrequests[0].shard.shard_id, shard_id_from_u64(1));
    assert_eq!(plan.requests[0].subrequests[0].shard.leader_id, "test-ingester");
    let init_shards_response = collect_init_shards(plan, &vec![InitShardsOutcome::Failed]);
    assert!(init_shards_response.successes.is_empty());
    ingest_controller.finish_scale_up(&source_uid, &init_shards_response.successes, &mut model);
    assert_eq!(model.all_shards().len(), 0);

    // Test successfully opened shard.
    let subrequest = ingest_controller
        .try_scale_up_shards(&source_uid, &mut model)
        .unwrap();
    assert_eq!(subrequest.leader_id, "test-ingester");
    let plan = ingest_controller.plan_init_shards(&subresponses);
    let outcomes = vec![InitShardsOutcome::Completed(InitShardsResponse {
        successes: vec![plan.requests[0].subrequests[0].clone()],
        failures: Vec::new(),
    })];
    let init_shards_response = collect_init_shards(plan, &outcomes);
    ingest_controller.finish_scale_up(&source_uid, &init_shards_response.successes, &mut model);
    assert_eq!(
        model
            .all_shards()
            .iter()
            .filter(|shard| shard.is_open())
            .count(),
        1
    );
}

#[test]
fn test_ingest_controller_try_scale_down_shards() {
    let replication_factor = 1;
    let mut ingest_controller = controller_for_test(&[], replication_factor);

    let source_uid = source_uid_for_test("test-index", "test-source");
    let mut model = ControlPlaneModel::new();

    // Test could not find a scale down candidate.
    let request_opt = ingest_controller.try_scale_down_shards(&source_uid, &mut model);
    assert!(request_opt.is_none());

    let shards = vec![shard_for_test(&source_uid, 1, ShardState::Open, "test-ingester")];
    model.insert_shards(&source_uid, shards);

    // Test ingester is unavailable.
    let request_opt = ingest_controller.try_scale_down_shards(&source_uid, &mut model);
    assert!(request_opt.is_none());

    ingest_controller.add_ingester("test-ingester".into());

    // Test failed to close shard.
    let (leader_id, shard_pkey) = ingest_controller
        .try_scale_down_shards(&source_uid, &mut model)
        .unwrap();
    assert_eq!(leader_id, "test-ingester");
    assert_eq!(shard_pkey.source_uid.index_uid, IndexUid::new("test-index", 0));
    assert_eq!(shard_pkey.source_uid.source_id, "test-source");
    assert_eq!(shard_pkey.shard_id, shard_id_from_u64(1));
    ingest_controller.abort_scale_down(&source_uid, &mut model);
    assert!(model.all_shards().iter().all(|shard| shard.is_open()));

    // Test successfully closed shard.
    let (leader_id, shard_pkey) = ingest_controller
        .try_scale_down_shards(&source_uid, &mut model)
        .unwrap();
    assert_eq!(leader_id, "test-ingester");
    assert_eq!(shard_pkey.shard_id, shard_id_from_u64(1));
    ingest_controller.finish_scale_down(&shard_pkey, &mut model);
    assert!(model.all_shards().iter().all(|shard| shard.is_closed()));

    let shards = vec![shard_for_test(&source_uid, 2, ShardState::Open, "test-ingester")];
    model.insert_shards(&source_uid, shards);

    // Test rate limited.
    let request_opt = ingest_controller.try_scale_down_shards(&source_uid, &mut model);
    assert!(request_opt.is_none());
    assert!(model.all_shards().iter().any(|shard| shard.is_open()));
}

#[test]
fn test_sync_with_ingesters() {
    let replication_factor = 2;
    let mut ingest_controller = controller_for_test(&[], replication_factor);

    let source_uid = source_uid_for_test("test-index", "test-source");
    let mut model = ControlPlaneModel::new();
    let mut shards = vec![
        shard_for_test(&source_uid, 1, ShardState::Open, "node-1"),
        shard_for_test(&source_uid, 2, ShardState::Open, "node-2"),
        shard_for_test(&source_uid, 3, ShardState::Open, "node-2"),
    ];
    shards[0].follower_id = Some("node-2".to_string());
    shards[1].follower_id = Some("node-3".to_string());
    shards[2].follower_id = Some("node-1".to_string());
    model.insert_shards(&source_uid, shards);

    ingest_controller.add_ingester("node-1".into());
    ingest_controller.add_ingester("node-2".into());
    ingest_controller.add_ingester("node-3".into());

    let node_id: NodeId = "node-1".into();
    let request = ingest_controller
        .sync_with_ingester(&node_id, &model)
        .unwrap();
    assert_eq!(request.ingester_id, "node-1");
    assert_eq!(request.retain_shards_for_sources.len(), 1);
    assert_eq!(
        request.retain_shards_for_sources[0].shard_ids,
        [shard_id_from_u64(1), shard_id_from_u64(3)]
    );
}

#[test]
fn test_ingest_controller_advise_reset_shards() {
    let replication_factor = 2;
    let ingest_controller = controller_for_test(&[], replication_factor);

    let mut model = ControlPlaneModel::new();

    let index_uid = IndexUid::new("test-index", 0);
    let source_uid_00 = source_uid_for_test("test-index", "test-source-0");
    let source_uid_01 = source_uid_for_test("test-index", "test-source-1");

    let mut shard = shard_for_test(&source_uid_00, 1, ShardState::Open, "");
    shard.publish_position_inclusive = Position::Offset(1337u64);
    model.insert_shards(&source_uid_00, vec![shard]);

    let advise_reset_shards_request = vec![
        ShardIds {
            source_uid: source_uid_00.clone(),
            shard_ids: vec![shard_id_from_u64(1), shard_id_from_u64(2)],
        },
        ShardIds {
            source_uid: source_uid_01.clone(),
            shard_ids: vec![shard_id_from_u64(3)],
        },
    ];
    let advise_reset_shards_response =
        ingest_controller.advise_reset_shards(&advise_reset_shards_request, &model);

    assert_eq!(advise_reset_shards_response.shards_to_delete.len(), 2);

    let shard_to_delete_00 = &advise_reset_shards_response.shards_to_delete[0];
    assert_eq!(shard_to_delete_00.source_uid.index_uid, index_uid);
    assert_eq!(shard_to_delete_00.source_uid.source_id, "test-source-0");
    assert_eq!(shard_to_delete_00.shard_ids.len(), 1);
    assert_eq!(shard_to_delete_00.shard_ids[0], shard_id_from_u64(2));

    let shard_to_delete_01 = &advise_reset_shards_response.shards_to_delete[1];
    assert_eq!(shard_to_delete_01.source_uid.index_uid, index_uid);
    assert_eq!(shard_to_delete_01.source_uid.source_id, "test-source-1");
    assert_eq!(shard_to_delete_01.shard_ids.len(), 1);
    assert_eq!(shard_to_delete_01.shard_ids[0], shard_id_from_u64(3));

    assert_eq!(advise_reset_shards_response.shards_to_truncate.len(), 1);

    let shard_to_truncate = &advise_reset_shards_response.shards_to_truncate[0];
    assert_eq!(shard_to_truncate.source_uid.index_uid, index_uid);
    assert_eq!(shard_to_truncate.source_uid.source_id, "test-source-0");
    assert_eq!(shard_to_truncate.shard_positions.len(), 1);
    assert_eq!(
        shard_to_truncate.shard_positions[0].shard_id,
        shard_id_from_u64(1)
    );
    assert_eq!(
        shard_to_truncate.shard_positions[0].publish_position_inclusive,
        Position::Offset(1337u64)
    );
}

fn pending_close_for_test(leader_id: &str, shard_id: u64) -> PendingClose {
    PendingClose {
        new_shard_id: shard_id_from_u64(100 + shard_id),
        leader_id: leader_id.to_string(),
        shard_pkey: ShardPKey {
            source_uid: source_uid_for_test("test-index", "test-source"),
            shard_id: shard_id_from_u64(shard_id),
        },
    }
}

#[test]
fn test_ingest_controller_close_shards() {
    let replication_factor = 1;
    let ingest_controller = controller_for_test(
        &["test-ingester-0", "test-ingester-1", "test-ingester-2"],
        replication_factor,
    );

    let requests = ingest_controller.plan_close_shards(&Vec::new());
    assert_eq!(requests.len(), 0);
    let closed_shards = collect_closed_shards(&Vec::new());
    assert_eq!(closed_shards.len(), 0);

    // In this test:
    // - ingester 0 will close shard 0 successfully and fail to close shard 1;
    // - ingester 1 will return an error;
    // - ingester 2 will time out;
    // - ingester 3 will be unavailable.

    let shards_to_close = vec![
        pending_close_for_test("test-ingester-0", 0),
        pending_close_for_test("test-ingester-0", 1),
        pending_close_for_test("test-ingester-1", 2),
        pending_close_for_test("test-ingester-2", 3),
        pending_close_for_test("test-ingester-3", 4),
    ];
    let requests = ingest_controller.plan_close_shards(&shards_to_close);
    assert_eq!(requests.len(), 3);

    // What ingester 0 is asked.
    let request = &requests[0];
    assert_eq!(request.leader_id, "test-ingester-0");
    assert_eq!(request.shard_pkeys.len(), 2);

    let shard_0 = &request.shard_pkeys[0];
    assert_eq!(shard_0.source_uid.index_uid, IndexUid::new("test-index", 0));
    assert_eq!(shard_0.source_uid.source_id, "test-source");
    assert_eq!(shard_0.shard_id, shard_id_from_u64(0));

    let shard_1 = &request.shard_pkeys[1];
    assert_eq!(shard_1.source_uid.index_uid, IndexUid::new("test-index", 0));
    assert_eq!(shard_1.source_uid.source_id, "test-source");
    assert_eq!(shard_1.shard_id, shard_id_from_u64(1));

    // What ingester 1 is asked.
    let request = &requests[1];
    assert_eq!(request.leader_id, "test-ingester-1");
    assert_eq!(request.shard_pkeys.len(), 1);

    let shard = &request.shard_pkeys[0];
    assert_eq!(shard.source_uid.index_uid, IndexUid::new("test-index", 0));
    assert_eq!(shard.source_uid.source_id, "test-source");
    assert_eq!(shard.shard_id, shard_id_from_u64(2));

    // What ingester 2 is asked.
    let request = &requests[2];
    assert_eq!(request.leader_id, "test-ingester-2");
    assert_eq!(request.shard_pkeys.len(), 1);
    assert_eq!(request.shard_pkeys[0].shard_id, shard_id_from_u64(3));

    let outcomes = vec![
        CloseShardsOutcome::Completed(vec![shard_0.clone()]),
        CloseShardsOutcome::Failed,
        CloseShardsOutcome::TimedOut,
    ];
    let closed_shards = collect_closed_shards(&outcomes);
    assert_eq!(closed_shards.len(), 1);

    let closed_shard = &closed_shards[0];
    assert_eq!(closed_shard.source_uid.index_uid, IndexUid::new("test-index", 0));
    assert_eq!(closed_shard.source_uid.source_id, "test-source");
    assert_eq!(closed_shard.shard_id, shard_id_from_u64(0));
}

#[test]
fn test_ingest_controller_rebalance_shards() {
    let replication_factor = 1;
    let mut ingest_controller = controller_for_test(&[], replication_factor);

    let mut model = ControlPlaneModel::new();

    let plan_opt = ingest_controller.rebalance_shards(&model);
    assert!(plan_opt.is_none());

    let index_uid = IndexUid::new("test-index", 0);
    model.add_index(index_uid.clone());

    let source_uid = SourceUid { index_uid: index_uid.clone(), source_id: "_ingest-source".to_string() };
    assert!(model.add_source(&source_uid));

    // In this test, ingester 0 hosts 5 shards but there are two ingesters in the cluster.
    // `rebalance_shards` will attempt to move 2 shards to ingester 1. However, it will fail to
    // init one shard, so only one shard will be actually moved.

    let open_shards = vec![
        shard_for_test(&source_uid, 0, ShardState::Open, "test-ingester-0"),
        shard_for_test(&source_uid, 1, ShardState::Open, "test-ingester-0"),
        shard_for_test(&source_uid, 2, ShardState::Open, "test-ingester-0"),
        shard_for_test(&source_uid, 3, ShardState::Open, "test-ingester-0"),
        shard_for_test(&source_uid, 4, ShardState::Open, "test-ingester-0"),
    ];
    model.insert_shards(&source_uid, open_shards);

    ingest_controller.add_ingester("test-ingester-0".into());
    ingest_controller.add_ingester("test-ingester-1".into());

    let plan = ingest_controller.rebalance_shards(&model).unwrap();

    // What the metastore is asked.
    assert_eq!(plan.open_shards_subrequests.len(), 2);

    let subrequest_0 = &plan.open_shards_subrequests[0];
    assert_eq!(subrequest_0.subrequest_id, 0);
    assert_eq!(subrequest_0.source_uid.index_uid, IndexUid::new("test-index", 0));
    assert_eq!(subrequest_0.source_uid.source_id, "_ingest-source");
    assert_eq!(subrequest_0.leader_id, "test-ingester-1");
    assert!(subrequest_0.follower_id.is_none());

    let subrequest_1 = &plan.open_shards_subrequests[1];
    assert_eq!(subrequest_1.subrequest_id, 1);
    assert_eq!(subrequest_1.source_uid.index_uid, IndexUid::new("test-index", 0));
    assert_eq!(subrequest_1.source_uid.source_id, "_ingest-source");
    assert_eq!(subrequest_1.leader_id, "test-ingester-1");
    assert!(subrequest_1.follower_id.is_none());

    // A second operation finds the lock taken.
    assert!(ingest_controller.rebalance_shards(&model).is_none());
    assert_eq!(ingest_controller.stats.num_rebalance_shards_ops, 2);

    // What the metastore answers.
    let subresponses: Vec<OpenShardSubresponse> = plan
        .open_shards_subrequests
        .iter()
        .map(|subrequest| OpenShardSubresponse {
            subrequest_id: subrequest.subrequest_id,
            shard: Shard {
                source_uid: subrequest.source_uid.clone(),
                shard_id: subrequest.shard_id.clone(),
                shard_state: ShardState::Open,
                leader_id: "test-ingester-1".to_string(),
                follower_id: None,
                publish_position_inclusive: Position::Beginning,
            },
        })
        .collect();

    // What ingester 1 is asked.
    let init_plan = ingest_controller.plan_init_shards(&subresponses);
    assert_eq!(init_plan.failures.len(), 0);
    assert_eq!(init_plan.requests.len(), 1);
    let request = &init_plan.requests[0];
    assert_eq!(request.leader_id, "test-ingester-1");
    assert_eq!(request.subrequests.len(), 2);

    let subrequest_0 = &request.subrequests[0];
    assert_eq!(subrequest_0.subrequest_id, 0);

    let shard_0 = &request.subrequests[0].shard;
    assert_eq!(shard_0.source_uid.index_uid, IndexUid::new("test-index", 0));
    assert_eq!(shard_0.source_uid.source_id, "_ingest-source");
    assert_eq!(shard_0.leader_id, "test-ingester-1");
    assert!(shard_0.follower_id.is_none());

    let subrequest_1 = &request.subrequests[1];
    assert_eq!(subrequest_1.subrequest_id, 1);

    let shard_1 = &request.subrequests[1].shard;
    assert_eq!(shard_1.source_uid.index_uid, IndexUid::new("test-index", 0));
    assert_eq!(shard_1.source_uid.source_id, "_ingest-source");
    assert_eq!(shard_1.leader_id, "test-ingester-1");
    assert!(shard_1.follower_id.is_none());

    // What ingester 1 answers.
    let outcomes = vec![InitShardsOutcome::Completed(InitShardsResponse {
        successes: vec![subrequest_0.clone()],
        failures: vec![InitShardFailure {
            subrequest_id: subrequest_1.subrequest_id,
            source_uid: shard_1.source_uid.clone(),
            shard_id: shard_1.shard_id.clone(),
        }],
    })];
    let init_shards_response = collect_init_shards(init_plan, &outcomes);

    let shards_to_close = ingest_controller.finish_rebalance_open_shards(
        &plan.shards_to_close,
        &init_shards_response.successes,
        &init_shards_response.failures,
        &mut model,
    );
    assert_eq!(shards_to_close.len(), 1);

    // What ingester 0 is asked.
    let close_requests = ingest_controller.plan_close_shards(&shards_to_close);
    assert_eq!(close_requests.len(), 1);
    assert_eq!(close_requests[0].leader_id, "test-ingester-0");
    assert_eq!(close_requests[0].shard_pkeys.len(), 1);

    let shard = &close_requests[0].shard_pkeys[0];
    assert_eq!(shard.source_uid.index_uid, IndexUid::new("test-index", 0));
    assert_eq!(shard.source_uid.source_id, "_ingest-source");
    assert_eq!(shard.shard_id, shard_id_from_u64(3));

    // What ingester 0 answers.
    let outcomes = vec![CloseShardsOutcome::Completed(vec![shard.clone()])];
    let callback = RebalanceShardsCallback {
        closed_shards: collect_closed_shards(&outcomes),
        rebalance_guard: plan.rebalance_guard,
    };
    assert_eq!(callback.closed_shards.len(), 1);

    ingest_controller.handle_rebalance_shards_callback(callback, &mut model);

    // The model has 5 open shards, 4 on ingester 0 and 1 on ingester 1.
    let all_shards = model.all_shards();
    let open_shards: Vec<&&ShardEntry> = all_shards.iter().filter(|shard| shard.is_open()).collect();
    assert_eq!(open_shards.len(), 5);
    assert_eq!(
        open_shards
            .iter()
            .filter(|shard| shard.shard.leader_id == "test-ingester-0")
            .count(),
        4
    );
    assert_eq!(
        open_shards
            .iter()
            .filter(|shard| shard.shard.leader_id == "test-ingester-1")
            .count(),
        1
    );
    assert!(find_shard(&model, 3).is_closed());

    // The lock is free again. Ingester 0 still leads one shard above the threshold.
    let plan = ingest_controller.rebalance_shards(&model).unwrap();
    assert_eq!(plan.open_shards_subrequests.len(), 1);
    assert_eq!(plan.open_shards_subrequests[0].leader_id, "test-ingester-1");
    assert_eq!(plan.shards_to_close.len(), 1);
    assert_eq!(plan.shards_to_close[0].leader_id, "test-ingester-0");
    assert_eq!(plan.shards_to_close[0].shard_pkey.shard_id, shard_id_from_u64(4));
    assert_eq!(ingest_controller.stats.num_rebalance_shards_ops, 3);

    // The metastore fails to open the shard.
    ingest_controller.abort_rebalance(plan);
    assert!(ingest_controller.rebalance_shards(&model).is_some());
}

fn loads_for_test(loads: &[(&str, usize)]) -> Vec<LeaderLoad> {
    loads
        .iter()
        .map(|(node_id, num_open_shards)| LeaderLoad {
            node_id: node_id.to_string(),
            num_open_shards: *num_open_shards,
        })
        .collect()
}

fn leaders_for_test(placements: &[(NodeId, Option<NodeId>)]) -> Vec<&str> {
    placements.iter().map(|(leader_id, _)| leader_id.as_str()).collect()
}

fn states_for_test(model: &ControlPlaneModel) -> Vec<(ShardId, ShardState, u16)> {
    model
        .all_shards()
        .iter()
        .map(|entry| (entry.shard.shard_id.clone(), entry.shard.shard_state, entry.ingestion_rate))
        .collect()
}

#[test]
fn names_compare_by_their_bytes() {
    assert_eq!(compare_names("a", "b"), NameOrder::Before);
    assert_eq!(compare_names("b", "a"), NameOrder::After);
    assert_eq!(compare_names("node-1", "node-1"), NameOrder::Same);
    assert_eq!(compare_names("", ""), NameOrder::Same);
    assert_eq!(compare_names("", "a"), NameOrder::Before);
    assert_eq!(compare_names("ab", "abc"), NameOrder::Before);
    assert_eq!(compare_names("abc", "ab"), NameOrder::After);
    assert_eq!(compare_names("node-10", "node-2"), NameOrder::Before);
    assert_eq!(compare_names("Z", "a"), NameOrder::Before);
    assert_eq!(compare_names("\u{e9}", "z"), NameOrder::After);
    assert_eq!(compare_names("\u{e9}", "\u{10348}"), NameOrder::Before);
    assert!(same_name("test-ingester", "test-ingester"));
    assert!(!same_name("test-ingester", "test-ingester-0"));
    assert!(!same_name("a", "b"));
}

#[test]
fn names_compare_as_strings_do() {
    let names = ["", "a", "ab", "abc", "b", "B", "node-1", "node-10", "node-2", "\u{e9}", "z"];
    for left in names {
        for right in names {
            let expected = if left < right {
                NameOrder::Before
            } else if left == right {
                NameOrder::Same
            } else {
                NameOrder::After
            };
            assert_eq!(compare_names(left, right), expected);
            assert_eq!(same_name(left, right), left == right);
        }
    }
}

#[test]
fn node_set_holds_each_node_once() {
    let node_ids = vec!["b".to_string(), "a".to_string(), "b".to_string()];
    let set = node_set_of(&node_ids);
    assert_eq!(set.len(), 2);
    assert!(set.contains("a"));
    assert!(set.contains("b"));
    assert!(!set.contains("c"));

    let set = node_set_of(&Vec::new());
    assert!(set.is_empty());
}

#[test]
fn pool_holds_each_node_once() {
    let mut pool = IngesterPool::new();
    assert_eq!(pool.len(), 0);
    assert!(!pool.contains_key("node-1"));

    pool.insert("node-1".to_string());
    pool.insert("node-2".to_string());
    pool.insert("node-1".to_string());
    assert_eq!(pool.len(), 2);
    assert!(pool.contains_key("node-1"));
    assert!(pool.contains_key("node-2"));
    assert!(!pool.contains_key("node-3"));

    let mut keys = pool.keys();
    keys.sort();
    assert_eq!(keys, ["node-1", "node-2"]);
}

#[test]
fn available_ingesters_come_in_ascending_order() {
    let mut pool = IngesterPool::new();
    for node_id in ["node-3", "node-10", "node-2", "node-1", "Node-4"] {
        pool.insert(node_id.to_string());
    }
    let available = pool.available(&FnvHashSet::default());
    assert_eq!(available, ["Node-4", "node-1", "node-10", "node-2", "node-3"]);

    let unavailable_leaders =
        FnvHashSet::from_iter(["node-2".to_string(), "node-7".to_string()]);
    let available = pool.available(&unavailable_leaders);
    assert_eq!(available, ["Node-4", "node-1", "node-10", "node-3"]);

    let unavailable_leaders = FnvHashSet::from_iter(pool.keys());
    assert!(pool.available(&unavailable_leaders).is_empty());
}

#[test]
fn ulid_shard_ids_have_26_digits() {
    assert_eq!(shard_id_from_ulid(0), "00000000000000000000000000");
    assert_eq!(shard_id_from_ulid(1), "00000000000000000000000001");
    assert_eq!(shard_id_from_ulid(31), "0000000000000000000000000Z");
    assert_eq!(shard_id_from_ulid(32), "00000000000000000000000010");
    assert_eq!(shard_id_from_ulid(32 * 32 + 10), "0000000000000000000000010A");
    assert_eq!(shard_id_from_ulid(u128::MAX), "7ZZZZZZZZZZZZZZZZZZZZZZZZZ");
    let text = "01D39ZY06FGSCTVN4T2V9PKHFZ";
    assert_eq!(shard_id_from_ulid(ulid::Ulid::from_string(text).unwrap().0), text);
    // Ids of growing numbers come in ascending order.
    assert_eq!(
        compare_names(&shard_id_from_ulid(1 << 80), &shard_id_from_ulid((1 << 80) + 1)),
        NameOrder::Before
    );
    assert_eq!(
        compare_names(&shard_id_from_ulid(31), &shard_id_from_ulid(32)),
        NameOrder::Before
    );
}

#[test]
fn minted_shard_ids_are_ulids() {
    let shard_id = mint_shard_id();
    assert_eq!(shard_id.len(), 26);
    assert!(shard_id
        .chars()
        .all(|digit| "0123456789ABCDEFGHJKMNPQRSTVWXYZ".contains(digit)));
    // The first ten digits hold the time in milliseconds: an id of today is above the id of
    // the year 2020.
    assert_eq!(
        compare_names(&shard_id_from_ulid(1_577_836_800_000u128 << 80), &shard_id),
        NameOrder::Before
    );
    assert_eq!(
        ulid::Ulid::from_string(&shard_id).unwrap().to_string(),
        shard_id
    );
}

#[test]
fn numbered_shard_ids_have_20_digits() {
    assert_eq!(shard_id_from_u64(0), "00000000000000000000");
    assert_eq!(shard_id_from_u64(1), "00000000000000000001");
    assert_eq!(shard_id_from_u64(1337), "00000000000000001337");
    assert_eq!(shard_id_from_u64(9_876_543_210), "00000000009876543210");
    assert_eq!(shard_id_from_u64(u64::MAX), "18446744073709551615");
    for number in [0u64, 7, 10, 99, 100, 12_345, u64::MAX / 3, u64::MAX] {
        assert_eq!(shard_id_from_u64(number), format!("{:0>20}", number));
    }
    assert_eq!(
        compare_names(&shard_id_from_u64(9), &shard_id_from_u64(10)),
        NameOrder::Before
    );
}

#[test]
fn placement_fills_up_to_the_cap_then_goes_round() {
    // 7 shards on 3 empty ingesters: the cap is 2.
    let loads = loads_for_test(&[("a", 0), ("b", 0), ("c", 0)]);
    let placements = place_shards(&loads, 0, 7, 1).unwrap();
    assert_eq!(leaders_for_test(&placements), ["a", "a", "b", "b", "c", "c", "a"]);
    assert!(placements.iter().all(|(_, follower_id)| follower_id.is_none()));

    // 2 shards on 3 empty ingesters: the cap is 0, the second pass places both.
    let placements = place_shards(&loads, 0, 2, 1).unwrap();
    assert_eq!(leaders_for_test(&placements), ["a", "b"]);

    // 5 open shards and 4 new ones on 3 ingesters: the cap is 3.
    let loads = loads_for_test(&[("a", 4), ("b", 1), ("c", 0)]);
    let placements = place_shards(&loads, 5, 4, 1).unwrap();
    assert_eq!(leaders_for_test(&placements), ["b", "b", "c", "c"]);

    // Open shards of leaders that are not available count in the cap: 10 open shards and 2
    // new ones on 2 ingesters give a cap of 6.
    let loads = loads_for_test(&[("a", 1), ("b", 1)]);
    let placements = place_shards(&loads, 10, 2, 1).unwrap();
    assert_eq!(leaders_for_test(&placements), ["a", "a"]);

    // Nothing to place.
    let placements = place_shards(&loads, 2, 0, 1).unwrap();
    assert!(placements.is_empty());
}

#[test]
fn placement_pairs_each_leader_with_the_next_ingester() {
    let loads = loads_for_test(&[("a", 0), ("b", 0), ("c", 0)]);
    for replication_factor in [2, 3] {
        let placements = place_shards(&loads, 0, 4, replication_factor).unwrap();
        assert_eq!(
            placements,
            [
                ("a".to_string(), Some("b".to_string())),
                ("b".to_string(), Some("c".to_string())),
                ("c".to_string(), Some("a".to_string())),
                ("a".to_string(), Some("b".to_string())),
            ]
        );
        for (leader_id, follower_id) in &placements {
            assert_ne!(Some(leader_id), follower_id.as_ref());
        }
    }
    for replication_factor in [0, 1] {
        let placements = place_shards(&loads, 0, 4, replication_factor).unwrap();
        assert_eq!(placements.len(), 4);
        assert!(placements.iter().all(|(_, follower_id)| follower_id.is_none()));
    }
    // One ingester is enough where shards are not replicated.
    let loads = loads_for_test(&[("a", 0)]);
    let placements = place_shards(&loads, 0, 3, 1).unwrap();
    assert_eq!(
        placements,
        [("a".to_string(), None), ("a".to_string(), None), ("a".to_string(), None)]
    );
}

#[test]
fn placement_is_refused_for_want_of_ingesters() {
    assert!(place_shards(&Vec::new(), 0, 1, 1).is_none());
    assert!(place_shards(&Vec::new(), 0, 0, 0).is_none());
    let loads = loads_for_test(&[("a", 0), ("b", 0)]);
    assert!(place_shards(&loads, 0, 1, 3).is_none());
    assert!(place_shards(&loads, 0, 1, 2).is_some());
}

#[test]
fn placement_leaves_no_leader_far_above_its_share() {
    // 3 open shards and 5 new ones on 4 ingesters: a share of 2.
    let loads = loads_for_test(&[("a", 2), ("b", 0), ("c", 1), ("d", 0)]);
    let placements = place_shards(&loads, 3, 5, 1).unwrap();
    assert_eq!(placements.len(), 5);
    for load in &loads {
        let num_new_shards = placements
            .iter()
            .filter(|(leader_id, _)| *leader_id == load.node_id)
            .count();
        assert!(load.num_open_shards + num_new_shards <= 2 + 1);
    }
    // A leader that is above the share may still get a shard of the second pass: 3 open
    // shards on one of 4 ingesters and 4 new ones.
    let loads = loads_for_test(&[("a", 3), ("b", 0), ("c", 0), ("d", 0)]);
    let placements = place_shards(&loads, 3, 4, 1).unwrap();
    assert_eq!(leaders_for_test(&placements), ["b", "c", "d", "a"]);
}

#[test]
fn scaling_follows_the_average_rate() {
    let stats = |num_open_shards, ingestion_rate_sum| ShardStats {
        num_open_shards,
        ingestion_rate_sum,
    };
    // An average of 3.9 MiB/s is below the threshold, 4.0 and 4.1 are not.
    assert_eq!(decide_scaling(stats(10, 39)), ScalingDecision::NoChange);
    assert_eq!(decide_scaling(stats(10, 40)), ScalingDecision::ScaleUp);
    assert_eq!(decide_scaling(stats(10, 41)), ScalingDecision::ScaleUp);
    assert_eq!(decide_scaling(stats(1, 4)), ScalingDecision::ScaleUp);
    assert_eq!(decide_scaling(stats(1, 3)), ScalingDecision::NoChange);
    // An average of 1.0 MiB/s scales down, 1.1 does not.
    assert_eq!(decide_scaling(stats(10, 10)), ScalingDecision::ScaleDown);
    assert_eq!(decide_scaling(stats(10, 11)), ScalingDecision::NoChange);
    assert_eq!(decide_scaling(stats(2, 0)), ScalingDecision::ScaleDown);
    // The last shard stays.
    assert_eq!(decide_scaling(stats(1, 0)), ScalingDecision::NoChange);
    assert_eq!(decide_scaling(stats(1, 1)), ScalingDecision::NoChange);
    assert_eq!(decide_scaling(stats(0, 0)), ScalingDecision::NoChange);
    assert_eq!(
        decide_scaling(stats(usize::MAX, u128::MAX)),
        ScalingDecision::ScaleUp
    );
}

#[test]
fn scale_up_waits_for_the_threshold() {
    let mut ingest_controller = controller_for_test(&["test-ingester"], 1);
    let source_uid = source_uid_for_test("test-index", "test-source");
    let mut model = ControlPlaneModel::new();
    model.insert_shards(
        &source_uid,
        vec![shard_for_test(&source_uid, 1, ShardState::Open, "test-ingester")],
    );
    let update = |ingestion_rate| LocalShardsUpdate {
        leader_id: "test-ingester".to_string(),
        source_uid: source_uid_for_test("test-index", "test-source"),
        shard_infos: vec![ShardInfo {
            shard_id: shard_id_from_u64(1),
            shard_state: ShardState::Open,
            ingestion_rate,
        }],
    };
    let step = ingest_controller.handle_local_shards_update(&update(3), &mut model);
    assert_eq!(step, ScalingStep::Nothing);

    let step = ingest_controller.handle_local_shards_update(&update(4), &mut model);
    let subrequest = match step {
        ScalingStep::OpenShard(subrequest) => subrequest,
        other => panic!("expected a shard to open, got {:?}", other),
    };
    assert_eq!(subrequest.subrequest_id, 0);
    assert_eq!(subrequest.source_uid, source_uid);
    assert_eq!(subrequest.shard_id.len(), 26);
    assert_eq!(subrequest.leader_id, "test-ingester");
    assert_eq!(subrequest.follower_id, None);

    // The leader fails to initialize the shard: the model is as it was and the permit is
    // back, so that the source can be scaled up 5 times.
    let before = states_for_test(&model);
    ingest_controller.finish_scale_up(&source_uid, &Vec::new(), &mut model);
    assert_eq!(states_for_test(&model), before);
    for _ in 0..5 {
        assert!(ingest_controller
            .try_scale_up_shards(&source_uid, &mut model)
            .is_some());
    }
    assert!(ingest_controller
        .try_scale_up_shards(&source_uid, &mut model)
        .is_none());
    ingest_controller.abort_scale_up(&source_uid, &mut model);
    assert!(ingest_controller
        .try_scale_up_shards(&source_uid, &mut model)
        .is_some());

    // No ingester is left: the permit that was taken comes back.
    ingest_controller = controller_for_test(&[], 1);
    ingest_controller.abort_scale_up(&source_uid, &mut model);
    assert!(ingest_controller
        .try_scale_up_shards(&source_uid, &mut model)
        .is_none());
    ingest_controller.add_ingester("test-ingester".to_string());
    assert!(ingest_controller
        .try_scale_up_shards(&source_uid, &mut model)
        .is_some());
}

#[test]
fn scale_down_candidate_is_the_busiest_shard_of_the_least_loaded_leader() {
    let source_uid = source_uid_for_test("test-index", "test-source");
    let mut model = ControlPlaneModel::new();
    model.insert_shards(
        &source_uid,
        vec![
            shard_for_test(&source_uid, 1, ShardState::Open, "test-ingester-0"),
            shard_for_test(&source_uid, 2, ShardState::Open, "test-ingester-0"),
            shard_for_test(&source_uid, 3, ShardState::Open, "test-ingester-1"),
            shard_for_test(&source_uid, 4, ShardState::Open, "test-ingester-1"),
            shard_for_test(&source_uid, 5, ShardState::Unavailable, "test-ingester-2"),
        ],
    );
    let info = |shard_id, ingestion_rate| ShardInfo {
        shard_id: shard_id_from_u64(shard_id),
        shard_state: ShardState::Open,
        ingestion_rate,
    };
    // All the shards take in as much and both leaders lead as many: the oldest shard.
    let (leader_id, shard_id) = find_scale_down_candidate(&source_uid, &model).unwrap();
    assert_eq!(leader_id, "test-ingester-0");
    assert_eq!(shard_id, shard_id_from_u64(1));

    // Both leaders lead as many: the shard that takes in most.
    model.update_shards(&source_uid, &vec![info(1, 2), info(2, 2), info(3, 3), info(4, 1)]);
    let (leader_id, shard_id) = find_scale_down_candidate(&source_uid, &model).unwrap();
    assert_eq!(leader_id, "test-ingester-1");
    assert_eq!(shard_id, shard_id_from_u64(3));

    // Of two shards that take in as much, the older one.
    model.update_shards(&source_uid, &vec![info(3, 2), info(4, 2)]);
    let (leader_id, shard_id) = find_scale_down_candidate(&source_uid, &model).unwrap();
    assert_eq!(leader_id, "test-ingester-0");
    assert_eq!(shard_id, shard_id_from_u64(1));

    // The leader that leads fewer open shards gives one, whatever the rates.
    model.close_shards(&source_uid, &vec![shard_id_from_u64(3)]);
    model.update_shards(&source_uid, &vec![info(1, 9), info(2, 9), info(4, 0)]);
    let (leader_id, shard_id) = find_scale_down_candidate(&source_uid, &model).unwrap();
    assert_eq!(leader_id, "test-ingester-1");
    assert_eq!(shard_id, shard_id_from_u64(4));

    // A source without open shard has no candidate.
    model.close_shards(
        &source_uid,
        &vec![shard_id_from_u64(1), shard_id_from_u64(2), shard_id_from_u64(4)],
    );
    assert!(find_scale_down_candidate(&source_uid, &model).is_none());
    let other_source_uid = source_uid_for_test("test-index", "other-source");
    assert!(find_scale_down_candidate(&other_source_uid, &model).is_none());
}

#[test]
fn cold_resolver_opens_a_replicated_shard() {
    let ingest_controller = controller_for_test(&["i2", "i1"], 2);
    let mut model = ControlPlaneModel::new();
    let source_uid = source_uid_for_test("A", "S");
    model.add_index(source_uid.index_uid.clone());
    assert!(model.add_source(&source_uid));

    let request = GetOrCreateOpenShardsRequest {
        subrequests: vec![GetOrCreateOpenShardsSubrequest {
            subrequest_id: 0,
            index_id: "A".to_string(),
            source_id: "S".to_string(),
        }],
        closed_shards: Vec::new(),
        unavailable_leaders: Vec::new(),
    };
    let pending = ingest_controller.start_get_or_create_open_shards(&request, &mut model);
    assert!(pending.successes.is_empty());
    assert!(pending.failures.is_empty());
    assert_eq!(pending.open_shards_subrequests.len(), 1);
    let subrequest = &pending.open_shards_subrequests[0];
    assert_eq!(subrequest.subrequest_id, 0);
    assert_eq!(subrequest.source_uid, source_uid);
    assert_eq!(subrequest.leader_id, "i1");
    assert_eq!(subrequest.follower_id, Some("i2".to_string()));
    assert_eq!(model.num_shards(), 0);

    let mut shard = shard_for_test(&source_uid, 1, ShardState::Open, "i1");
    shard.follower_id = Some("i2".to_string());
    let subresponses = vec![OpenShardSubresponse { subrequest_id: 0, shard: shard.clone() }];
    let plan = ingest_controller.plan_init_shards(&subresponses);
    assert_eq!(plan.requests.len(), 1);
    assert_eq!(plan.requests[0].leader_id, "i1");
    let outcomes = vec![InitShardsOutcome::Completed(InitShardsResponse {
        successes: subresponses.clone(),
        failures: Vec::new(),
    })];
    let init_shards_response = collect_init_shards(plan, &outcomes);
    let response = ingest_controller.finish_get_or_create_open_shards(
        pending,
        &init_shards_response.successes,
        &mut model,
    );
    assert!(response.failures.is_empty());
    assert_eq!(response.successes.len(), 1);
    assert_eq!(response.successes[0].subrequest_id, 0);
    assert_eq!(response.successes[0].source_uid, source_uid);
    assert_eq!(response.successes[0].open_shards, [shard]);
    assert_eq!(model.num_shards(), 1);
}

#[test]
fn resolver_does_not_hand_back_a_shard_reported_closed() {
    let ingest_controller = controller_for_test(&["i1"], 1);
    let mut model = ControlPlaneModel::new();
    let source_uid = source_uid_for_test("A", "S");
    model.add_index(source_uid.index_uid.clone());
    assert!(model.add_source(&source_uid));
    model.insert_shards(&source_uid, vec![shard_for_test(&source_uid, 1, ShardState::Open, "i1")]);

    let request = GetOrCreateOpenShardsRequest {
        subrequests: vec![GetOrCreateOpenShardsSubrequest {
            subrequest_id: 7,
            index_id: "A".to_string(),
            source_id: "S".to_string(),
        }],
        closed_shards: vec![ShardIds {
            source_uid: source_uid.clone(),
            shard_ids: vec![shard_id_from_u64(1)],
        }],
        unavailable_leaders: Vec::new(),
    };
    let pending = ingest_controller.start_get_or_create_open_shards(&request, &mut model);
    assert!(find_shard(&model, 1).is_closed());
    assert!(pending.successes.is_empty());
    assert_eq!(pending.open_shards_subrequests.len(), 1);
    assert_eq!(pending.open_shards_subrequests[0].subrequest_id, 7);
    assert_eq!(pending.open_shards_subrequests[0].leader_id, "i1");
    assert_eq!(pending.open_shards_subrequests[0].follower_id, None);

    let shard_2 = shard_for_test(&source_uid, 2, ShardState::Open, "i1");
    let initialized = vec![SubrequestShard { subrequest_id: 7, shard: shard_2.clone() }];
    let response =
        ingest_controller.finish_get_or_create_open_shards(pending, &initialized, &mut model);
    assert!(response.failures.is_empty());
    assert_eq!(response.successes.len(), 1);
    assert_eq!(response.successes[0].subrequest_id, 7);
    assert_eq!(response.successes[0].open_shards, [shard_2]);
    assert!(find_shard(&model, 1).is_closed());
    assert!(find_shard(&model, 2).is_open());
}

#[test]
fn resolver_fails_for_want_of_ingesters() {
    let ingest_controller = controller_for_test(&[], 1);
    let mut model = ControlPlaneModel::new();
    let source_uid = source_uid_for_test("A", "S");
    model.add_index(source_uid.index_uid.clone());
    assert!(model.add_source(&source_uid));

    let request = GetOrCreateOpenShardsRequest {
        subrequests: vec![GetOrCreateOpenShardsSubrequest {
            subrequest_id: 3,
            index_id: "A".to_string(),
            source_id: "S".to_string(),
        }],
        closed_shards: Vec::new(),
        unavailable_leaders: Vec::new(),
    };
    let pending = ingest_controller.start_get_or_create_open_shards(&request, &mut model);
    assert!(pending.is_complete());
    let response =
        ingest_controller.finish_get_or_create_open_shards(pending, &Vec::new(), &mut model);
    assert!(response.successes.is_empty());
    assert_eq!(response.failures.len(), 1);
    assert_eq!(response.failures[0].subrequest_id, 3);
    assert_eq!(response.failures[0].index_id, "A");
    assert_eq!(response.failures[0].source_id, "S");
    assert_eq!(
        response.failures[0].reason,
        GetOrCreateOpenShardsFailureReason::NoIngestersAvailable
    );

    // The only ingester is one that the router could not reach.
    let ingest_controller = controller_for_test(&["i1"], 1);
    let request = GetOrCreateOpenShardsRequest {
        subrequests: request.subrequests,
        closed_shards: Vec::new(),
        unavailable_leaders: vec!["i1".to_string()],
    };
    let pending = ingest_controller.start_get_or_create_open_shards(&request, &mut model);
    assert!(pending.is_complete());
    assert_eq!(pending.failures.len(), 1);
    assert_eq!(
        pending.failures[0].reason,
        GetOrCreateOpenShardsFailureReason::NoIngestersAvailable
    );

    // Two copies of a shard need two ingesters.
    let ingest_controller = controller_for_test(&["i1"], 2);
    let request = GetOrCreateOpenShardsRequest {
        subrequests: request.subrequests,
        closed_shards: Vec::new(),
        unavailable_leaders: Vec::new(),
    };
    let pending = ingest_controller.start_get_or_create_open_shards(&request, &mut model);
    assert_eq!(pending.failures.len(), 1);
    assert_eq!(
        pending.failures[0].reason,
        GetOrCreateOpenShardsFailureReason::NoIngestersAvailable
    );
}

#[test]
fn resolver_answers_each_subrequest_once() {
    let ingest_controller = controller_for_test(&["i1", "i2"], 1);
    let mut model = ControlPlaneModel::new();
    let source_uid_0 = source_uid_for_test("A", "S0");
    let source_uid_1 = source_uid_for_test("A", "S1");
    let source_uid_2 = source_uid_for_test("A", "S2");
    model.add_index(source_uid_0.index_uid.clone());
    assert!(model.add_source(&source_uid_0));
    assert!(model.add_source(&source_uid_1));
    assert!(model.add_source(&source_uid_2));
    model.insert_shards(&source_uid_0, vec![shard_for_test(&source_uid_0, 1, ShardState::Open, "i1")]);

    let subrequest = |subrequest_id, index_id: &str, source_id: &str| GetOrCreateOpenShardsSubrequest {
        subrequest_id,
        index_id: index_id.to_string(),
        source_id: source_id.to_string(),
    };
    let request = GetOrCreateOpenShardsRequest {
        subrequests: vec![
            subrequest(10, "A", "S1"),
            subrequest(11, "B", "S0"),
            subrequest(12, "A", "S0"),
            subrequest(13, "A", "S2"),
            subrequest(14, "A", "S3"),
        ],
        closed_shards: Vec::new(),
        unavailable_leaders: Vec::new(),
    };
    let pending = ingest_controller.start_get_or_create_open_shards(&request, &mut model);
    assert_eq!(pending.open_shards_subrequests.len(), 2);
    // 1 open shard and 2 new ones on 2 ingesters: a cap of 1, which i1 has reached.
    assert_eq!(pending.open_shards_subrequests[0].subrequest_id, 10);
    assert_eq!(pending.open_shards_subrequests[0].source_uid, source_uid_1);
    assert_eq!(pending.open_shards_subrequests[0].leader_id, "i2");
    assert_eq!(pending.open_shards_subrequests[1].subrequest_id, 13);
    assert_eq!(pending.open_shards_subrequests[1].source_uid, source_uid_2);
    assert_eq!(pending.open_shards_subrequests[1].leader_id, "i1");

    let initialized: Vec<SubrequestShard> = pending
        .open_shards_subrequests
        .iter()
        .map(|subrequest| SubrequestShard {
            subrequest_id: subrequest.subrequest_id,
            shard: Shard {
                source_uid: subrequest.source_uid.clone(),
                shard_id: subrequest.shard_id.clone(),
                shard_state: ShardState::Open,
                leader_id: subrequest.leader_id.clone(),
                follower_id: None,
                publish_position_inclusive: Position::Beginning,
            },
        })
        .collect();
    let response =
        ingest_controller.finish_get_or_create_open_shards(pending, &initialized, &mut model);
    assert_eq!(
        response.successes.len() + response.failures.len(),
        request.subrequests.len()
    );
    let mut subrequest_ids: Vec<u32> = response
        .successes
        .iter()
        .map(|success| success.subrequest_id)
        .chain(response.failures.iter().map(|failure| failure.subrequest_id))
        .collect();
    subrequest_ids.sort();
    assert_eq!(subrequest_ids, [10, 11, 12, 13, 14]);
    assert_eq!(
        response.failures.iter().map(|failure| failure.reason).collect::<Vec<_>>(),
        [
            GetOrCreateOpenShardsFailureReason::IndexNotFound,
            GetOrCreateOpenShardsFailureReason::SourceNotFound
        ]
    );
}

#[test]
fn closed_shards_can_be_reported_twice() {
    let ingest_controller = controller_for_test(&["i1"], 1);
    let mut model = ControlPlaneModel::new();
    let source_uid = source_uid_for_test("A", "S");
    model.insert_shards(
        &source_uid,
        vec![
            shard_for_test(&source_uid, 1, ShardState::Open, "i1"),
            shard_for_test(&source_uid, 2, ShardState::Unavailable, "i0"),
            shard_for_test(&source_uid, 3, ShardState::Open, "i1"),
        ],
    );
    let closed_shards = vec![
        ShardIds {
            source_uid: source_uid.clone(),
            shard_ids: vec![shard_id_from_u64(2), shard_id_from_u64(9)],
        },
        ShardIds {
            source_uid: source_uid_for_test("A", "other"),
            shard_ids: vec![shard_id_from_u64(3)],
        },
        ShardIds { source_uid: source_uid.clone(), shard_ids: vec![shard_id_from_u64(1)] },
    ];
    ingest_controller.handle_closed_shards(&closed_shards, &mut model);
    let once = states_for_test(&model);
    assert_eq!(
        once,
        [
            (shard_id_from_u64(1), ShardState::Closed, 0),
            (shard_id_from_u64(2), ShardState::Closed, 0),
            (shard_id_from_u64(3), ShardState::Open, 0),
        ]
    );
    ingest_controller.handle_closed_shards(&closed_shards, &mut model);
    assert_eq!(states_for_test(&model), once);
}

#[test]
fn reports_of_an_ingester_can_be_taken_in_twice() {
    let source_uid = source_uid_for_test("A", "S");
    let mut model = ControlPlaneModel::new();
    model.insert_shards(
        &source_uid,
        vec![
            shard_for_test(&source_uid, 1, ShardState::Open, "i1"),
            shard_for_test(&source_uid, 2, ShardState::Open, "i1"),
            shard_for_test(&source_uid, 3, ShardState::Open, "i1"),
        ],
    );
    let info = |shard_id, shard_state, ingestion_rate| ShardInfo {
        shard_id: shard_id_from_u64(shard_id),
        shard_state,
        ingestion_rate,
    };
    let shard_infos = vec![
        info(1, ShardState::Open, 3),
        info(2, ShardState::Closed, 5),
        info(1, ShardState::Open, 4),
        info(8, ShardState::Open, 9),
    ];
    let shard_stats = model.update_shards(&source_uid, &shard_infos);
    assert_eq!(shard_stats, ShardStats { num_open_shards: 2, ingestion_rate_sum: 4 });
    let once = states_for_test(&model);
    assert_eq!(
        once,
        [
            (shard_id_from_u64(1), ShardState::Open, 4),
            (shard_id_from_u64(2), ShardState::Closed, 5),
            (shard_id_from_u64(3), ShardState::Open, 0),
        ]
    );
    assert_eq!(model.update_shards(&source_uid, &shard_infos), shard_stats);
    assert_eq!(states_for_test(&model), once);

    // A shard that is closed stays closed.
    let shard_stats = model.update_shards(&source_uid, &vec![info(2, ShardState::Open, 7)]);
    assert_eq!(shard_stats, ShardStats { num_open_shards: 2, ingestion_rate_sum: 4 });
    assert!(find_shard(&model, 2).is_closed());

    // Nothing is known of a source that the model does not know.
    let other_source_uid = source_uid_for_test("A", "other");
    let shard_stats = model.update_shards(&other_source_uid, &shard_infos);
    assert_eq!(shard_stats, ShardStats { num_open_shards: 0, ingestion_rate_sum: 0 });
}

#[test]
fn reset_advice_is_to_delete_or_to_truncate() {
    let ingest_controller = controller_for_test(&[], 1);
    let mut model = ControlPlaneModel::new();
    let source_uid = source_uid_for_test("A", "S0");
    model.insert_shards(
        &source_uid,
        vec![
            shard_for_test(&source_uid, 1, ShardState::Closed, "i1"),
            shard_for_test(&source_uid, 4, ShardState::Open, "i1"),
        ],
    );
    let request = vec![
        ShardIds {
            source_uid: source_uid.clone(),
            shard_ids: (0..6).map(shard_id_from_u64).collect(),
        },
        ShardIds { source_uid: source_uid.clone(), shard_ids: vec![shard_id_from_u64(4)] },
        ShardIds { source_uid: source_uid.clone(), shard_ids: Vec::new() },
    ];
    let response = ingest_controller.advise_reset_shards(&request, &model);
    assert_eq!(response.shards_to_delete.len(), 1);
    assert_eq!(
        response.shards_to_delete[0].shard_ids,
        [
            shard_id_from_u64(0),
            shard_id_from_u64(2),
            shard_id_from_u64(3),
            shard_id_from_u64(5)
        ]
    );
    assert_eq!(response.shards_to_truncate.len(), 2);
    assert_eq!(response.shards_to_truncate[0].shard_positions.len(), 2);
    assert_eq!(response.shards_to_truncate[0].shard_positions[0].shard_id, shard_id_from_u64(1));
    assert_eq!(
        response.shards_to_truncate[0].shard_positions[0].publish_position_inclusive,
        Position::Beginning
    );
    assert_eq!(response.shards_to_truncate[0].shard_positions[1].shard_id, shard_id_from_u64(4));
    assert_eq!(response.shards_to_truncate[1].shard_positions.len(), 1);
    for to_delete in &response.shards_to_delete {
        for shard_id in &to_delete.shard_ids {
            for to_truncate in &response.shards_to_truncate {
                assert!(
                    to_delete.source_uid != to_truncate.source_uid
                        || to_truncate
                            .shard_positions
                            .iter()
                            .all(|position| position.shard_id != *shard_id)
                );
            }
        }
    }
    assert_eq!(
        summarize_shard_ids(&response.shards_to_delete),
        response.shards_to_delete[0].shard_ids
    );
    assert_eq!(summarize_shard_ids(&request).len(), 7);
    assert!(summarize_shard_ids(&Vec::new()).is_empty());
}

#[test]
fn model_keeps_shards_in_ascending_order() {
    let source_uid = source_uid_for_test("A", "S");
    let mut model = ControlPlaneModel::new();
    assert_eq!(model.num_shards(), 0);
    assert!(model.get_shards_for_source(&source_uid).is_none());
    model.insert_shards(
        &source_uid,
        vec![
            shard_for_test(&source_uid, 5, ShardState::Open, "i1"),
            shard_for_test(&source_uid, 2, ShardState::Open, "i2"),
            shard_for_test(&source_uid, 9, ShardState::Closed, "i1"),
        ],
    );
    // A shard that the model knows is left as the model has it.
    model.insert_shards(
        &source_uid,
        vec![
            shard_for_test(&source_uid, 2, ShardState::Closed, "i3"),
            shard_for_test(&source_uid, 7, ShardState::Open, "i2"),
        ],
    );
    assert_eq!(
        states_for_test(&model),
        [
            (shard_id_from_u64(2), ShardState::Open, 0),
            (shard_id_from_u64(5), ShardState::Open, 0),
            (shard_id_from_u64(7), ShardState::Open, 0),
            (shard_id_from_u64(9), ShardState::Closed, 0),
        ]
    );
    assert_eq!(find_shard(&model, 2).shard.leader_id, "i2");
    let table = model.get_shards_for_source(&source_uid).unwrap();
    assert_eq!(table.shard_entries().len(), 4);
    assert!(table.find_shard(&shard_id_from_u64(7)).is_some());
    assert!(table.find_shard(&shard_id_from_u64(8)).is_none());
    assert_eq!(table.stats(), ShardStats { num_open_shards: 3, ingestion_rate_sum: 0 });

    // Closing says which shards were open.
    let closed = model.close_shards(
        &source_uid,
        &vec![shard_id_from_u64(9), shard_id_from_u64(5), shard_id_from_u64(1)],
    );
    assert_eq!(closed, [shard_id_from_u64(5)]);
    let closed = model.close_shards(&source_uid_for_test("A", "other"), &vec![shard_id_from_u64(2)]);
    assert!(closed.is_empty());

    // Open shards, leaving aside those of some leaders.
    let unavailable_leaders = FnvHashSet::from_iter(["i2".to_string()]);
    let open_shards = model.find_open_shards(&source_uid, &FnvHashSet::default()).unwrap();
    assert_eq!(open_shards.len(), 2);
    assert!(model
        .find_open_shards(&source_uid, &unavailable_leaders)
        .unwrap()
        .is_empty());
    assert!(model
        .find_open_shards(&source_uid_for_test("A", "other"), &unavailable_leaders)
        .is_none());

    model.set_shards_as_unavailable(&unavailable_leaders);
    assert!(find_shard(&model, 2).is_unavailable());
    assert!(find_shard(&model, 7).is_unavailable());
    assert!(find_shard(&model, 5).is_closed());
}

#[test]
fn model_knows_indexes_and_sources() {
    let mut model = ControlPlaneModel::new();
    assert!(model.index_uid("A").is_none());
    model.add_index(IndexUid::new("A", 7));
    model.add_index(IndexUid::new("A", 8));
    model.add_index(IndexUid::new("B", 9));
    assert_eq!(model.index_uid("A"), Some(IndexUid::new("A", 7)));
    assert_eq!(model.index_uid("B"), Some(IndexUid::new("B", 9)));
    assert!(model.index_uid("C").is_none());

    let source_uid = SourceUid { index_uid: IndexUid::new("A", 7), source_id: "S".to_string() };
    assert!(model.add_source(&source_uid));
    assert!(model.add_source(&source_uid));
    assert!(model.get_shards_for_source(&source_uid).is_some());
    let unknown = SourceUid { index_uid: IndexUid::new("C", 1), source_id: "S".to_string() };
    assert!(!model.add_source(&unknown));
    assert!(model.get_shards_for_source(&unknown).is_none());
    assert!(IndexUid::new("A", 7).same_as(&IndexUid::new("A", 7)));
    assert!(!IndexUid::new("A", 7).same_as(&IndexUid::new("A", 8)));
    assert!(!source_uid.same_as(&unknown));
}

#[test]
fn scaling_permits_are_limited() {
    let source_uid = source_uid_for_test("A", "S");
    let mut model = ControlPlaneModel::new();
    assert_eq!(model.acquire_scaling_permits(&source_uid, ScalingMode::Up, 1), None);
    model.insert_shards(&source_uid, Vec::new());
    assert_eq!(model.acquire_scaling_permits(&source_uid, ScalingMode::Up, 6), Some(false));
    assert_eq!(model.acquire_scaling_permits(&source_uid, ScalingMode::Up, 4), Some(true));
    assert_eq!(model.acquire_scaling_permits(&source_uid, ScalingMode::Up, 2), Some(false));
    assert_eq!(model.acquire_scaling_permits(&source_uid, ScalingMode::Up, 1), Some(true));
    assert_eq!(model.acquire_scaling_permits(&source_uid, ScalingMode::Up, 1), Some(false));
    assert_eq!(model.acquire_scaling_permits(&source_uid, ScalingMode::Up, 0), Some(true));
    model.release_scaling_permits(&source_uid, ScalingMode::Up, u64::MAX);
    assert_eq!(model.acquire_scaling_permits(&source_uid, ScalingMode::Up, 5), Some(true));

    assert_eq!(model.acquire_scaling_permits(&source_uid, ScalingMode::Down, 2), Some(false));
    model.drain_scaling_permits(&source_uid, ScalingMode::Down);
    assert_eq!(model.acquire_scaling_permits(&source_uid, ScalingMode::Down, 1), Some(false));
    model.release_scaling_permits(&source_uid, ScalingMode::Down, 3);
    assert_eq!(model.acquire_scaling_permits(&source_uid, ScalingMode::Down, 1), Some(true));
    assert_eq!(model.acquire_scaling_permits(&source_uid, ScalingMode::Down, 1), Some(false));
}

#[test]
fn unanswered_requests_fail_their_shards() {
    let ingest_controller = controller_for_test(&["i1", "i2"], 1);
    let source_uid = source_uid_for_test("A", "S");
    let subresponses = vec![
        OpenShardSubresponse {
            subrequest_id: 0,
            shard: shard_for_test(&source_uid, 0, ShardState::Open, "i2"),
        },
        OpenShardSubresponse {
            subrequest_id: 1,
            shard: shard_for_test(&source_uid, 1, ShardState::Open, "i1"),
        },
        OpenShardSubresponse {
            subrequest_id: 2,
            shard: shard_for_test(&source_uid, 2, ShardState::Open, "i2"),
        },
    ];
    let plan = ingest_controller.plan_init_shards(&subresponses);
    assert_eq!(plan.requests.len(), 2);
    assert_eq!(plan.requests[0].leader_id, "i2");
    assert_eq!(plan.requests[0].subrequests, [subresponses[0].clone(), subresponses[2].clone()]);
    assert_eq!(plan.requests[1].leader_id, "i1");
    assert_eq!(plan.requests[1].subrequests, [subresponses[1].clone()]);

    // Only the first request has an outcome.
    let outcomes = vec![InitShardsOutcome::Completed(InitShardsResponse {
        successes: vec![subresponses[2].clone(), subresponses[0].clone()],
        failures: Vec::new(),
    })];
    let response = collect_init_shards(plan, &outcomes);
    assert_eq!(response.successes, [subresponses[2].clone(), subresponses[0].clone()]);
    assert_eq!(response.failures.len(), 1);
    assert_eq!(
        response.failures[0],
        InitShardFailure {
            subrequest_id: 1,
            source_uid: source_uid.clone(),
            shard_id: shard_id_from_u64(1)
        }
    );
}

#[test]
fn live_ingesters_are_told_what_to_keep() {
    let ingest_controller = controller_for_test(&["node-1", "node-2"], 2);
    let source_uid_0 = source_uid_for_test("A", "S0");
    let source_uid_1 = source_uid_for_test("A", "S1");
    let mut model = ControlPlaneModel::new();
    let mut shard = shard_for_test(&source_uid_0, 1, ShardState::Closed, "node-1");
    shard.follower_id = Some("node-3".to_string());
    model.insert_shards(&source_uid_0, vec![shard]);
    let mut shard = shard_for_test(&source_uid_1, 2, ShardState::Open, "node-2");
    shard.follower_id = Some("node-1".to_string());
    model.insert_shards(&source_uid_1, vec![shard]);

    let ingesters = vec!["node-3".to_string(), "node-2".to_string(), "node-1".to_string()];
    let requests = ingest_controller.sync_with_ingesters(&ingesters, &model);
    assert_eq!(requests.len(), 2);
    assert_eq!(requests[0].ingester_id, "node-2");
    assert_eq!(
        requests[0].retain_shards_for_sources,
        [ShardIds { source_uid: source_uid_1.clone(), shard_ids: vec![shard_id_from_u64(2)] }]
    );
    assert_eq!(requests[1].ingester_id, "node-1");
    assert_eq!(
        requests[1].retain_shards_for_sources,
        [
            ShardIds { source_uid: source_uid_0.clone(), shard_ids: vec![shard_id_from_u64(1)] },
            ShardIds { source_uid: source_uid_1.clone(), shard_ids: vec![shard_id_from_u64(2)] },
        ]
    );
    assert!(ingest_controller
        .sync_with_ingester(&"node-3".to_string(), &model)
        .is_none());

    let mut requests = ingest_controller.sync_with_all_ingesters(&model);
    requests.sort_by(|left, right| left.ingester_id.cmp(&right.ingester_id));
    assert_eq!(requests.len(), 2);
    assert_eq!(requests[0].ingester_id, "node-1");
    assert_eq!(requests[0].retain_shards_for_sources.len(), 2);
    assert_eq!(requests[1].ingester_id, "node-2");
    assert_eq!(requests[1].retain_shards_for_sources.len(), 1);

    // An ingester that hosts nothing is told to keep nothing.
    let ingest_controller = controller_for_test(&["node-4"], 2);
    let requests = ingest_controller.sync_with_all_ingesters(&model);
    assert_eq!(requests.len(), 1);
    assert!(requests[0].retain_shards_for_sources.is_empty());
}

#[test]
fn rebalance_moves_what_is_above_the_threshold() {
    // 12 open shards on 3 ingesters: a share of 4 and a threshold of 5.
    let mut ingest_controller = controller_for_test(&["i0", "i1", "i2"], 2);
    let source_uid_0 = source_uid_for_test("A", "S0");
    let source_uid_1 = source_uid_for_test("A", "S1");
    let mut model = ControlPlaneModel::new();
    model.insert_shards(
        &source_uid_0,
        (0..7)
            .map(|shard_id| shard_for_test(&source_uid_0, shard_id, ShardState::Open, "i1"))
            .collect(),
    );
    model.insert_shards(
        &source_uid_1,
        vec![
            shard_for_test(&source_uid_1, 10, ShardState::Open, "i0"),
            shard_for_test(&source_uid_1, 11, ShardState::Open, "i1"),
            shard_for_test(&source_uid_1, 12, ShardState::Open, "i0"),
            shard_for_test(&source_uid_1, 13, ShardState::Open, "i0"),
            shard_for_test(&source_uid_1, 14, ShardState::Open, "i0"),
            shard_for_test(&source_uid_1, 15, ShardState::Closed, "i1"),
        ],
    );
    let plan = ingest_controller.rebalance_shards(&model).unwrap();
    // The leader i1 leads 8 open shards: it gives away the last 3 of them.
    assert_eq!(
        plan.shards_to_close
            .iter()
            .map(|pending| (pending.leader_id.as_str(), pending.shard_pkey.shard_id.clone()))
            .collect::<Vec<_>>(),
        [
            ("i1", shard_id_from_u64(5)),
            ("i1", shard_id_from_u64(6)),
            ("i1", shard_id_from_u64(11)),
        ]
    );
    assert_eq!(plan.shards_to_close[2].shard_pkey.source_uid, source_uid_1);
    // 15 shards on 3 ingesters: a cap of 5. The ingester i0 lacks one shard to it, i2 five.
    assert_eq!(
        plan.open_shards_subrequests
            .iter()
            .map(|subrequest| (
                subrequest.subrequest_id,
                subrequest.leader_id.as_str(),
                subrequest.follower_id.as_deref()
            ))
            .collect::<Vec<_>>(),
        [(0, "i0", Some("i1")), (1, "i2", Some("i0")), (2, "i2", Some("i0"))]
    );
    for (subrequest, pending) in plan.open_shards_subrequests.iter().zip(&plan.shards_to_close) {
        assert_eq!(subrequest.shard_id, pending.new_shard_id);
        assert_eq!(subrequest.source_uid, pending.shard_pkey.source_uid);
    }
    assert_eq!(ingest_controller.stats.num_rebalance_shards_ops, 1);

    // The leaders initialize all the new shards; the old leader closes what it is asked.
    let initialized: Vec<SubrequestShard> = plan
        .open_shards_subrequests
        .iter()
        .map(|subrequest| SubrequestShard {
            subrequest_id: subrequest.subrequest_id,
            shard: Shard {
                source_uid: subrequest.source_uid.clone(),
                shard_id: subrequest.shard_id.clone(),
                shard_state: ShardState::Open,
                leader_id: subrequest.leader_id.clone(),
                follower_id: subrequest.follower_id.clone(),
                publish_position_inclusive: Position::Beginning,
            },
        })
        .collect();
    let shards_to_close = ingest_controller.finish_rebalance_open_shards(
        &plan.shards_to_close,
        &initialized,
        &Vec::new(),
        &mut model,
    );
    assert_eq!(shards_to_close, plan.shards_to_close);
    // The sources of the new shards cannot be scaled down for now.
    assert_eq!(model.acquire_scaling_permits(&source_uid_0, ScalingMode::Down, 1), Some(false));
    assert_eq!(model.acquire_scaling_permits(&source_uid_1, ScalingMode::Down, 1), Some(false));

    let close_requests = ingest_controller.plan_close_shards(&shards_to_close);
    assert_eq!(close_requests.len(), 1);
    assert_eq!(close_requests[0].leader_id, "i1");
    assert_eq!(close_requests[0].shard_pkeys.len(), 3);
    let outcomes = vec![CloseShardsOutcome::Completed(close_requests[0].shard_pkeys.clone())];
    let callback = RebalanceShardsCallback {
        closed_shards: collect_closed_shards(&outcomes),
        rebalance_guard: plan.rebalance_guard,
    };
    ingest_controller.handle_rebalance_shards_callback(callback, &mut model);

    // No leader is more than one shard above the threshold.
    for (leader_id, expected) in [("i0", 5), ("i1", 5), ("i2", 2)] {
        let num_open_shards = model
            .all_shards()
            .iter()
            .filter(|entry| entry.is_open() && entry.shard.leader_id == leader_id)
            .count();
        assert_eq!(num_open_shards, expected);
        assert!(num_open_shards <= 5 + 1);
    }
    // Nothing is left to move.
    assert!(ingest_controller.rebalance_shards(&model).is_none());
    assert!(ingest_controller.rebalance_shards(&model).is_none());
    assert_eq!(ingest_controller.stats.num_rebalance_shards_ops, 3);
}

#[test]
fn rebalance_needs_a_place_for_the_new_shards() {
    // Two copies of a shard and one ingester: no place.
    let mut ingest_controller = controller_for_test(&["i0"], 2);
    let source_uid = source_uid_for_test("A", "S");
    let mut model = ControlPlaneModel::new();
    model.insert_shards(
        &source_uid,
        (0..4)
            .map(|shard_id| shard_for_test(&source_uid, shard_id, ShardState::Open, "i9"))
            .collect(),
    );
    assert!(ingest_controller.rebalance_shards(&model).is_none());
    assert_eq!(ingest_controller.stats.num_rebalance_shards_ops, 1);

    // 4 open shards on one ingester: a threshold of 5.
    let mut ingest_controller = controller_for_test(&["i9"], 1);
    assert!(ingest_controller.rebalance_shards(&model).is_none());

    // 4 open shards on two ingesters: a threshold of 3. The old leader is not alive: its
    // shard is left open.
    let mut ingest_controller = controller_for_test(&["i0", "i1"], 1);
    let plan = ingest_controller.rebalance_shards(&model).unwrap();
    assert_eq!(plan.shards_to_close.len(), 1);
    assert_eq!(plan.shards_to_close[0].shard_pkey.shard_id, shard_id_from_u64(3));
    assert!(ingest_controller.plan_close_shards(&plan.shards_to_close).is_empty());
    let callback = RebalanceShardsCallback {
        closed_shards: collect_closed_shards(&Vec::new()),
        rebalance_guard: plan.rebalance_guard,
    };
    ingest_controller.handle_rebalance_shards_callback(callback, &mut model);
    assert!(find_shard(&model, 3).is_open());
    assert!(ingest_controller.rebalance_shards(&model).is_some());
}

#[test]
fn shards_are_hosted_by_their_leader_and_their_follower() {
    let source_uid = source_uid_for_test("A", "S");
    let mut shard = shard_for_test(&source_uid, 1, ShardState::Open, "i1");
    let entry = ShardEntry::new(shard.clone());
    assert_eq!(entry.ingestion_rate, 0);
    assert!(entry.hosted_by("i1"));
    assert!(!entry.hosted_by("i2"));
    shard.follower_id = Some("i2".to_string());
    let entry = ShardEntry::new(shard);
    assert!(entry.hosted_by("i1"));
    assert!(entry.hosted_by("i2"));
    assert!(!entry.hosted_by("i3"));
    assert!(entry.is_open() && !entry.is_closed() && !entry.is_unavailable());
    assert_eq!(
        Shard::open(&source_uid, "00000000000000000001", "i1"),
        shard_for_test(&source_uid, 1, ShardState::Open, "i1")
    );
}

#[test]
fn ingesters_come_and_go() {
    let mut pool = IngesterPool::new();
    assert!(!pool.remove("node-1"));
    pool.insert("node-1".to_string());
    pool.insert("node-2".to_string());
    pool.insert("node-3".to_string());
    assert!(pool.remove("node-2"));
    assert!(!pool.remove("node-2"));
    assert_eq!(pool.len(), 2);
    assert_eq!(pool.keys(), ["node-1", "node-3"]);

    let mut ingest_controller = controller_for_test(&["i1", "i2"], 2);
    let model = ControlPlaneModel::new();
    assert!(ingest_controller
        .allocate_shards(1, &FnvHashSet::default(), &model)
        .is_some());
    ingest_controller.remove_ingester("i2");
    assert!(!ingest_controller.ingester_pool().contains_key("i2"));
    assert!(ingest_controller
        .allocate_shards(1, &FnvHashSet::default(), &model)
        .is_none());
    ingest_controller.add_ingester("i3".to_string());
    let placements = ingest_controller
        .allocate_shards(1, &FnvHashSet::default(), &model)
        .unwrap();
    assert_eq!(placements, [("i1".to_string(), Some("i3".to_string()))]);
    assert_eq!(ingest_controller.replication_factor(), 2);
}

#[test]
fn scaling_permits_come_back_with_time() {
    let source_uid_0 = source_uid_for_test("A", "S0");
    let source_uid_1 = source_uid_for_test("A", "S1");
    let mut model = ControlPlaneModel::new();
    model.insert_shards(&source_uid_0, Vec::new());
    model.insert_shards(&source_uid_1, Vec::new());
    assert_eq!(model.acquire_scaling_permits(&source_uid_0, ScalingMode::Up, 5), Some(true));
    assert_eq!(model.acquire_scaling_permits(&source_uid_1, ScalingMode::Up, 1), Some(true));
    assert_eq!(model.acquire_scaling_permits(&source_uid_1, ScalingMode::Down, 1), Some(true));

    model.refill_scaling_permits(ScalingMode::Up, 2);
    assert_eq!(model.acquire_scaling_permits(&source_uid_0, ScalingMode::Up, 3), Some(false));
    assert_eq!(model.acquire_scaling_permits(&source_uid_0, ScalingMode::Up, 2), Some(true));
    // The other source held 4 permits: it holds 5 now, and no more.
    assert_eq!(model.acquire_scaling_permits(&source_uid_1, ScalingMode::Up, 6), Some(false));
    assert_eq!(model.acquire_scaling_permits(&source_uid_1, ScalingMode::Up, 5), Some(true));
    // The permits to scale down are as they were.
    assert_eq!(model.acquire_scaling_permits(&source_uid_1, ScalingMode::Down, 1), Some(false));
    assert_eq!(model.acquire_scaling_permits(&source_uid_0, ScalingMode::Down, 1), Some(true));

    model.refill_scaling_permits(ScalingMode::Down, 1);
    assert_eq!(model.acquire_scaling_permits(&source_uid_1, ScalingMode::Down, 1), Some(true));
    assert_eq!(model.acquire_scaling_permits(&source_uid_0, ScalingMode::Down, 1), Some(true));
}
