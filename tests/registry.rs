use cw_factory::codec::IndexValue;
use cw_factory::error::ContractError;
use cw_factory::migrate::{
    MigrationErrorStrategy, MigrationParams, MigrationStatus, Migrations, UpgradeCommand,
};
use cw_factory::msg::{
    BooleanTest, ContractHasRelationsQueryParams, ContractHasTagsQueryParams, ContractSelector,
    ContractsByTagQueryParams, ContractsInRangeQueryParams, ContractsRelatedToParams, IndexRangeBound,
    IndexSelector, IndexUpdate, NameValue, RelationUpdate, TagSelector, TagUpdate,
    TagWeightRangeBound, UpdateMsg, UpdateOperation,
};
use cw_factory::query::{
    query_contract_has_relations, query_contract_has_tags, query_contract_is_related_to,
    query_contracts_by_tag, query_contracts_in_range, query_contracts_related_to,
};
use cw_factory::registry::{Config, CreateMsg, Factory};
use cw_factory::update::exec_update;

const MANAGER: &str = "manager";
const FACTORY: &str = "factory";

fn factory() -> Factory {
    Factory::new(Config {
        managed_by: MANAGER.to_string(),
        default_code_id: Some(1),
        allowed_code_ids: vec![1, 2],
    })
}

fn create(f: &mut Factory, code_id: u64, address: &str, now: u64) -> u32 {
    let cmd = f
        .exec_create(
            &MANAGER.to_string(),
            &FACTORY.to_string(),
            CreateMsg {
                code_id: Some(code_id),
                instantiate_msg: vec![],
                name: None,
                label: address.to_string(),
                admin: None,
            },
        )
        .unwrap();
    assert_eq!(cmd.code_id, code_id);
    f.handle_creation_reply(cmd.reply_id, address.to_string(), now).unwrap()
}

fn params(name: &str, batch: u16, strategy: MigrationErrorStrategy, from: Option<u64>) -> MigrationParams {
    MigrationParams {
        name: name.to_string(),
        batch_size: Some(batch),
        error_strategy: strategy,
        migrate_msg: None,
        from_code_id: from,
        to_code_id: 9,
    }
}



#[test]
fn ids_are_allocated_in_order_and_indexed_by_code() {
    let mut f = factory();
    assert_eq!(create(&mut f, 1, "addr0", 10), 0);
    assert_eq!(create(&mut f, 1, "addr1", 11), 1);
    assert_eq!(create(&mut f, 2, "addr2", 12), 2);
    let r = query_contracts_in_range(
        &f,
        ContractsInRangeQueryParams {
            cursor: None,
            index: IndexSelector::CodeId,
            start: Some(IndexRangeBound::Inclusive(IndexValue::Uint64(1))),
            stop: Some(IndexRangeBound::Inclusive(IndexValue::Uint64(1))),
            limit: None,
            desc: None,
        },
    )
    .unwrap();
    assert_eq!(r.addresses, vec!["addr0".to_string(), "addr1".to_string()]);
    assert!(r.cursor.is_none());
}

#[test]
fn step_with_source_filter_dispatches_matching_records_and_completes() {
    let mut f = factory();
    create(&mut f, 1, "addr0", 10);
    create(&mut f, 1, "addr1", 11);
    create(&mut f, 2, "addr2", 12);
    let mut ms = Migrations::new();
    ms.exec_begin_migration(&f, params("m", 10, MigrationErrorStrategy::Retry, Some(1))).unwrap();
    let cmds: Vec<UpgradeCommand> = ms.exec_step_migration(&mut f, &"m".to_string()).unwrap();
    assert_eq!(cmds.len(), 2);
    assert_eq!(cmds[0].contract, "addr0");
    assert_eq!(cmds[1].contract, "addr1");
    assert_eq!(cmds[0].new_code_id, 9);
    assert_eq!(cmds[1].reply_id, cmds[0].reply_id + 1);
    let s = ms.query_migration_session(&f, &"m".to_string()).unwrap();
    assert_eq!(s.status, MigrationStatus::Complete);
    assert!(s.cursor.is_none());
    assert!(matches!(
        ms.exec_step_migration(&mut f, &"m".to_string()),
        Err(ContractError::MigrationComplete { .. })
    ));
}

#[test]
fn steps_cover_all_records_in_ceil_k_over_b_steps() {
    let mut f = factory();
    for i in 0..5 {
        create(&mut f, 1, &format!("a{}", i), i);
    }
    let mut ms = Migrations::new();
    ms.exec_begin_migration(&f, params("m", 2, MigrationErrorStrategy::Retry, None)).unwrap();
    let name = "m".to_string();
    let mut steps = 0;
    let mut seen: Vec<String> = vec![];
    loop {
        let cmds = ms.exec_step_migration(&mut f, &name).unwrap();
        steps += 1;
        for (i, c) in cmds.iter().enumerate() {
            seen.push(c.contract.clone());
            let outcome = if i % 2 == 0 { Ok(()) } else { Err("boom".to_string()) };
            ms.handle_migration_reply(&f, c.reply_id, outcome).unwrap();
        }
        let s = ms.query_migration_session(&f, &name).unwrap();
        if s.status == MigrationStatus::Complete {
            assert!(s.cursor.is_none());
            assert_eq!(s.n_success + s.n_error, 5);
            break;
        }
    }
    assert_eq!(steps, 3);
    assert_eq!(seen, vec!["a0", "a1", "a2", "a3", "a4"]);
}

#[test]
fn retry_after_failure_clears_the_error() {
    let mut f = factory();
    create(&mut f, 1, "a0", 1);
    create(&mut f, 1, "a1", 2);
    let mut ms = Migrations::new();
    let name = "m".to_string();
    ms.exec_begin_migration(&f, params("m", 2, MigrationErrorStrategy::Retry, None)).unwrap();
    let cmds = ms.exec_step_migration(&mut f, &name).unwrap();
    assert_eq!(cmds.len(), 2);
    ms.handle_migration_reply(&f, cmds[0].reply_id, Ok(())).unwrap();
    ms.handle_migration_reply(&f, cmds[1].reply_id, Err("failed".to_string())).unwrap();
    let s = ms.query_migration_session(&f, &name).unwrap();
    assert_eq!(s.errors.len(), 1);
    assert_eq!(s.errors[0].contract, "a1");
    assert_eq!(s.errors[0].error, "failed");
    assert_eq!((s.n_success, s.n_error), (1, 1));
    let retry = ms.exec_retry_migration(&mut f, &name, None).unwrap();
    assert_eq!(retry.len(), 1);
    assert_eq!(retry[0].contract, "a1");
    ms.handle_migration_reply(&f, retry[0].reply_id, Ok(())).unwrap();
    let s = ms.query_migration_session(&f, &name).unwrap();
    assert_eq!(s.errors.len(), 0);
    assert_eq!((s.n_success, s.n_error), (2, 0));
}

#[test]
fn abort_policy_fails_the_reply_and_keeps_counts() {
    let mut f = factory();
    create(&mut f, 1, "a0", 1);
    let mut ms = Migrations::new();
    let name = "m".to_string();
    ms.exec_begin_migration(&f, params("m", 5, MigrationErrorStrategy::Abort, None)).unwrap();
    let cmds = ms.exec_step_migration(&mut f, &name).unwrap();
    let r = ms.handle_migration_reply(&f, cmds[0].reply_id, Err("bad".to_string()));
    assert!(matches!(r, Err(ContractError::UpgradeFailed { .. })));
    let s = ms.query_migration_session(&f, &name).unwrap();
    assert_eq!((s.n_success, s.n_error), (0, 0));
    assert_eq!(s.errors.len(), 0);
}

#[test]
fn begin_twice_and_unknown_replies_fail() {
    let f = factory();
    let mut ms = Migrations::new();
    ms.exec_begin_migration(&f, params("m", 5, MigrationErrorStrategy::Abort, None)).unwrap();
    assert!(matches!(
        ms.exec_begin_migration(&f, params("m", 5, MigrationErrorStrategy::Abort, None)),
        Err(ContractError::MigrationExists { .. })
    ));
    assert!(matches!(
        ms.handle_migration_reply(&f, 77, Ok(())),
        Err(ContractError::InvalidReply { reply_id: 77 })
    ));
    let mut f2 = factory();
    assert!(matches!(ms.exec_step_migration(&mut f2, &"x".to_string()), Err(ContractError::NotFound)));
}

#[test]
fn cancel_removes_session_and_errors() {
    let mut f = factory();
    create(&mut f, 1, "a0", 1);
    let mut ms = Migrations::new();
    let name = "m".to_string();
    ms.exec_begin_migration(&f, params("m", 5, MigrationErrorStrategy::Retry, None)).unwrap();
    let cmds = ms.exec_step_migration(&mut f, &name).unwrap();
    ms.handle_migration_reply(&f, cmds[0].reply_id, Err("bad".to_string())).unwrap();
    ms.exec_cancel_migration(&f, &name).unwrap();
    assert!(matches!(ms.query_migration_session(&f, &name), Err(ContractError::NotFound)));
    // a late reply for the cancelled session is dropped
    assert!(ms.handle_migration_reply(&f, cmds[0].reply_id, Ok(())).is_ok());
}

fn tag_update(op: UpdateOperation, tag: &str, weight: Option<u16>) -> TagUpdate {
    TagUpdate { op, tag: tag.to_string(), weight }
}

fn update(f: &mut Factory, sender: &str, tags: Vec<TagUpdate>, relations: Vec<RelationUpdate>, indices: Vec<IndexUpdate>) -> Result<u32, ContractError> {
    exec_update(
        f,
        &sender.to_string(),
        UpdateMsg { contract: None, indices: Some(indices), relations: Some(relations), tags: Some(tags) },
        1000,
    )
}

fn has_tags(f: &Factory, contract: &str, test: BooleanTest, tags: Vec<TagSelector>) -> bool {
    query_contract_has_tags(f, ContractHasTagsQueryParams { contract: contract.to_string(), test, tags })
        .unwrap()
}

fn sel(tag: &str, min: Option<u16>, max: Option<u16>) -> TagSelector {
    TagSelector { tag: tag.to_string(), min_weight: min, max_weight: max }
}

#[test]
fn set_then_remove_tag_round_trip() {
    let mut f = factory();
    create(&mut f, 1, "a0", 1);
    update(&mut f, "a0", vec![tag_update(UpdateOperation::Put, "red", Some(5))], vec![], vec![]).unwrap();
    assert!(has_tags(&f, "a0", BooleanTest::And, vec![sel("red", None, None)]));
    assert!(has_tags(&f, "a0", BooleanTest::And, vec![sel("red", Some(5), Some(5))]));
    assert!(!has_tags(&f, "a0", BooleanTest::And, vec![sel("red", Some(6), None)]));
    update(&mut f, "a0", vec![tag_update(UpdateOperation::Remove, "red", None)], vec![], vec![]).unwrap();
    assert!(!has_tags(&f, "a0", BooleanTest::And, vec![sel("red", None, None)]));
}

#[test]
fn boolean_tests_combine_selectors() {
    let mut f = factory();
    create(&mut f, 1, "a0", 1);
    update(
        &mut f,
        "a0",
        vec![tag_update(UpdateOperation::Put, "x", None), tag_update(UpdateOperation::Put, "y", Some(2))],
        vec![],
        vec![],
    )
    .unwrap();
    let xs = || vec![sel("x", None, None), sel("z", None, None)];
    assert!(!has_tags(&f, "a0", BooleanTest::And, xs()));
    assert!(has_tags(&f, "a0", BooleanTest::Or, xs()));
    assert!(has_tags(&f, "a0", BooleanTest::Xor, xs()));
    let both = vec![sel("x", None, None), sel("y", None, None)];
    assert!(!has_tags(&f, "a0", BooleanTest::Xor, both));
    assert!(!has_tags(&f, "a0", BooleanTest::Or, vec![sel("z", None, None)]));
}

#[test]
fn unknown_sender_cannot_update_and_selector_needs_manager() {
    let mut f = factory();
    create(&mut f, 1, "a0", 1);
    assert!(matches!(update(&mut f, "stranger", vec![], vec![], vec![]), Err(ContractError::NotFound)));
    let r = exec_update(
        &mut f,
        &"a0".to_string(),
        UpdateMsg { contract: Some(ContractSelector::Id(0)), indices: None, relations: None, tags: None },
        5,
    );
    assert!(matches!(r, Err(ContractError::NotAuthorized { .. })));
    let r = exec_update(
        &mut f,
        &MANAGER.to_string(),
        UpdateMsg { contract: Some(ContractSelector::Id(0)), indices: None, relations: None, tags: None },
        5,
    );
    assert_eq!(r.unwrap(), 0);
}

fn rel(op: UpdateOperation, name: &str, value: Option<IndexValue>, address: &str) -> RelationUpdate {
    RelationUpdate { op, name: name.to_string(), value, address: address.to_string() }
}

fn related(f: &Factory, contract: &str, address: &str, nv: NameValue) -> bool {
    query_contract_is_related_to(
        f,
        ContractHasRelationsQueryParams {
            test: BooleanTest::And,
            relations: vec![nv],
            contract_address: contract.to_string(),
            address: address.to_string(),
        },
    )
    .unwrap()
}

#[test]
fn set_then_remove_relation_round_trip() {
    let mut f = factory();
    create(&mut f, 1, "a0", 1);
    let nv = || NameValue { name: "owner".to_string(), value: Some(IndexValue::Uint8(3)) };
    update(&mut f, "a0", vec![], vec![rel(UpdateOperation::Put, "owner", Some(IndexValue::Uint8(3)), "bob")], vec![]).unwrap();
    assert!(related(&f, "a0", "bob", nv()));
    assert!(!related(&f, "a0", "bob", NameValue { name: "owner".to_string(), value: None }));
    let by_label = query_contract_has_relations(
        &f,
        ContractHasRelationsQueryParams {
            test: BooleanTest::And,
            relations: vec![nv()],
            contract_address: "a0".to_string(),
            address: "bob".to_string(),
        },
    )
    .unwrap();
    assert!(by_label);
    let r = query_contracts_related_to(
        &f,
        ContractsRelatedToParams { cursor: None, limit: None, desc: None, address: "bob".to_string(), start: None, stop: None },
    )
    .unwrap();
    assert_eq!(r.addresses, vec!["a0".to_string()]);
    assert!(matches!(r.values[0], Some(IndexValue::Uint8(3))));
    update(&mut f, "a0", vec![], vec![rel(UpdateOperation::Remove, "owner", Some(IndexValue::Uint8(3)), "bob")], vec![]).unwrap();
    assert!(!related(&f, "a0", "bob", nv()));
    let r = query_contracts_related_to(
        &f,
        ContractsRelatedToParams { cursor: None, limit: None, desc: None, address: "bob".to_string(), start: None, stop: None },
    )
    .unwrap();
    assert!(r.addresses.is_empty());
}

fn custom_records() -> Factory {
    let mut f = factory();
    let values = [30u32, 10, 20, 10, 50];
    for (i, v) in values.iter().enumerate() {
        let a = format!("r{}", i);
        create(&mut f, 1, &a, i as u64);
        update(&mut f, &a, vec![], vec![], vec![IndexUpdate { name: "score".to_string(), value: IndexValue::Uint32(*v) }]).unwrap();
    }
    f
}

fn scan(f: &Factory, cursor: Option<(Vec<u8>, u32)>, limit: u16, desc: bool) -> (Vec<String>, Option<(Vec<u8>, u32)>) {
    let r = query_contracts_in_range(
        f,
        ContractsInRangeQueryParams {
            cursor,
            index: IndexSelector::Custom("score".to_string()),
            start: None,
            stop: None,
            limit: Some(limit),
            desc: Some(desc),
        },
    )
    .unwrap();
    (r.addresses, r.cursor)
}

#[test]
fn custom_index_orders_by_value_then_id() {
    let f = custom_records();
    let (all, cursor) = scan(&f, None, 10, false);
    // little-endian u32 bytes: 10 < 20 < 30 < 50 as bytes here since they fit in one byte
    assert_eq!(all, vec!["r1", "r3", "r2", "r0", "r4"]);
    assert!(cursor.is_none());
}

#[test]
fn paging_concatenates_to_one_scan() {
    let f = custom_records();
    let (first, c1) = scan(&f, None, 2, false);
    let c1 = c1.expect("a full page carries a cursor");
    let (second, _) = scan(&f, Some(c1), 2, false);
    let (whole, _) = scan(&f, None, 4, false);
    let mut joined = first.clone();
    joined.extend(second);
    assert_eq!(joined, whole);
}

#[test]
fn descending_scan_reverses_ascending() {
    let f = custom_records();
    let (asc, _) = scan(&f, None, 10, false);
    let (mut desc, _) = scan(&f, None, 10, true);
    desc.reverse();
    assert_eq!(asc, desc);
}

#[test]
fn range_bounds_are_inclusive_or_exclusive() {
    let f = custom_records();
    let q = |start, stop| {
        query_contracts_in_range(
            &f,
            ContractsInRangeQueryParams {
                cursor: None,
                index: IndexSelector::Custom("score".to_string()),
                start,
                stop,
                limit: None,
                desc: None,
            },
        )
        .unwrap()
        .addresses
    };
    assert_eq!(
        q(Some(IndexRangeBound::Inclusive(IndexValue::Uint32(10))), Some(IndexRangeBound::Inclusive(IndexValue::Uint32(20)))),
        vec!["r1", "r3", "r2"]
    );
    assert_eq!(
        q(Some(IndexRangeBound::Exclusive(IndexValue::Uint32(10))), Some(IndexRangeBound::Exclusive(IndexValue::Uint32(50)))),
        vec!["r2", "r0"]
    );
}

#[test]
fn records_by_tag_are_ordered_by_weight() {
    let mut f = factory();
    for (i, w) in [7u16, 3, 9].iter().enumerate() {
        let a = format!("t{}", i);
        create(&mut f, 1, &a, i as u64);
        update(&mut f, &a, vec![tag_update(UpdateOperation::Put, "hot", Some(*w))], vec![], vec![]).unwrap();
    }
    let r = query_contracts_by_tag(
        &f,
        ContractsByTagQueryParams {
            cursor: None,
            tag: "hot".to_string(),
            min_weight: Some(TagWeightRangeBound::Inclusive(4)),
            max_weight: None,
            limit: None,
            desc: None,
        },
    )
    .unwrap();
    assert_eq!(r.addresses, vec!["t0", "t2"]);
    assert_eq!(r.weights, vec![7, 9]);
    let r = query_contracts_by_tag(
        &f,
        ContractsByTagQueryParams {
            cursor: None,
            tag: "hot".to_string(),
            min_weight: None,
            max_weight: None,
            limit: Some(1),
            desc: Some(true),
        },
    )
    .unwrap();
    assert_eq!(r.addresses, vec!["t2"]);
    let c = r.cursor.expect("full page");
    assert_eq!((c.1, c.2), (9, 2));
}

#[test]
fn create_checks_code_ids() {
    let mut f = Factory::new(Config { managed_by: MANAGER.to_string(), default_code_id: None, allowed_code_ids: vec![4] });
    let msg = |code_id| CreateMsg { code_id, instantiate_msg: vec![], name: None, label: "l".to_string(), admin: None };
    assert!(matches!(
        f.exec_create(&MANAGER.to_string(), &FACTORY.to_string(), msg(Some(5))),
        Err(ContractError::NotAuthorized { .. })
    ));
    assert!(matches!(
        f.exec_create(&MANAGER.to_string(), &FACTORY.to_string(), msg(None)),
        Err(ContractError::ValidationError { .. })
    ));
    let cmd = f.exec_create(&MANAGER.to_string(), &FACTORY.to_string(), msg(Some(4))).unwrap();
    assert_eq!(cmd.admin, FACTORY);
    assert!(matches!(f.handle_creation_reply(cmd.reply_id + 1, "x".to_string(), 0), Err(ContractError::InvalidReply { .. })));
    assert_eq!(f.handle_creation_reply(cmd.reply_id, "x".to_string(), 0).unwrap(), 0);
    assert_eq!(f.resolve(&ContractSelector::Address("x".to_string())).unwrap(), 0);
    assert!(matches!(f.resolve(&ContractSelector::Id(3)), Err(ContractError::NotFound)));
}

#[test]
fn allocated_ids_strictly_increase() {
    let mut f = factory();
    let a = f.allocate_id().unwrap();
    let b = f.allocate_id().unwrap();
    let c = create(&mut f, 1, "z", 0);
    assert!(a < b && b < c);
    assert_eq!((a, b, c), (0, 1, 2));
}
