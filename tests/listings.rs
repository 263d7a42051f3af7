use cw_factory::codec::IndexValue;
use cw_factory::error::ContractError;
use cw_factory::index::RangeQueryBound;
use cw_factory::migrate::{
    exec_migrate_one, MigrationErrorStrategy, MigrationParams, Migrations, SingletonMigrationParams,
};
use cw_factory::msg::{
    ContractRelationsQueryParams, ContractTagsQueryParams, ContractsRelatedToParams, NameValue,
    RelationUpdate, TagUpdate, UpdateMsg, UpdateOperation,
};
use cw_factory::query::{
    query_contract_metadata, query_contract_relations, query_contract_tags, query_contracts_related_to,
};
use cw_factory::registry::{Config, CreateMsg, Factory};
use cw_factory::update::exec_update;

fn factory() -> Factory {
    Factory::new(Config { managed_by: "boss".to_string(), default_code_id: Some(1), allowed_code_ids: vec![1, 2] })
}

fn create(f: &mut Factory, code: u64, address: &str) -> u32 {
    let cmd = f
        .exec_create(
            &"boss".to_string(),
            &"factory".to_string(),
            CreateMsg { code_id: Some(code), instantiate_msg: vec![1, 2], name: None, label: "l".to_string(), admin: None },
        )
        .unwrap();
    assert_eq!(cmd.msg, vec![1, 2]);
    f.handle_creation_reply(cmd.reply_id, address.to_string(), 5).unwrap()
}

fn put_tags(f: &mut Factory, a: &str, tags: &[(&str, u16)]) {
    let ups = tags
        .iter()
        .map(|(t, w)| TagUpdate { op: UpdateOperation::Put, tag: t.to_string(), weight: Some(*w) })
        .collect();
    exec_update(f, &a.to_string(), UpdateMsg { contract: None, indices: None, relations: None, tags: Some(ups) }, 9)
        .unwrap();
}

fn tags_of(f: &Factory, a: &str, cursor: Option<String>, start: Option<RangeQueryBound<String>>, limit: Option<u16>, desc: bool) -> (Vec<(String, u16)>, Option<String>) {
    let r = query_contract_tags(
        f,
        ContractTagsQueryParams { contract: a.to_string(), cursor, start, stop: None, limit, desc: Some(desc) },
    )
    .unwrap();
    (r.tags.into_iter().map(|t| (t.tag, t.weight)).collect(), r.cursor)
}

#[test]
fn record_tags_are_listed_in_tag_order_with_weights() {
    let mut f = factory();
    create(&mut f, 1, "a0");
    put_tags(&mut f, "a0", &[("beta", 2), ("alpha", 7), ("gamma", 1)]);
    let (all, cursor) = tags_of(&f, "a0", None, None, None, false);
    assert_eq!(all, vec![("alpha".to_string(), 7), ("beta".to_string(), 2), ("gamma".to_string(), 1)]);
    assert!(cursor.is_none());
    let (full, c) = tags_of(&f, "a0", None, None, Some(3), false);
    assert_eq!(full.len(), 3);
    assert_eq!(c, Some("gamma".to_string()));
    let (page, c) = tags_of(&f, "a0", None, None, Some(1), false);
    assert_eq!(page, vec![("alpha".to_string(), 7)]);
    let (rest, _) = tags_of(&f, "a0", c, None, None, false);
    assert_eq!(rest, vec![("beta".to_string(), 2), ("gamma".to_string(), 1)]);
    let (desc, _) = tags_of(&f, "a0", None, None, None, true);
    assert_eq!(desc[0].0, "gamma");
    let (from_beta, _) = tags_of(&f, "a0", None, Some(RangeQueryBound::Exclusive("beta".to_string())), None, false);
    assert_eq!(from_beta, vec![("gamma".to_string(), 1)]);
    let (incl_beta, _) = tags_of(&f, "a0", None, Some(RangeQueryBound::Inclusive("beta".to_string())), None, false);
    assert_eq!(incl_beta.len(), 2);
}

#[test]
fn retagging_replaces_the_weight() {
    let mut f = factory();
    create(&mut f, 1, "a0");
    put_tags(&mut f, "a0", &[("t", 1)]);
    put_tags(&mut f, "a0", &[("t", 4)]);
    let (all, _) = tags_of(&f, "a0", None, None, None, false);
    assert_eq!(all, vec![("t".to_string(), 4)]);
}

#[test]
fn unknown_record_has_no_tags() {
    let f = factory();
    let r = query_contract_tags(
        &f,
        ContractTagsQueryParams { contract: "nobody".to_string(), cursor: None, start: None, stop: None, limit: None, desc: None },
    );
    assert!(matches!(r, Err(ContractError::NotFound)));
}

fn relate(f: &mut Factory, a: &str, name: &str, value: Option<IndexValue>, to: &str) {
    exec_update(
        f,
        &a.to_string(),
        UpdateMsg {
            contract: None,
            indices: None,
            tags: None,
            relations: Some(vec![RelationUpdate { op: UpdateOperation::Put, name: name.to_string(), value, address: to.to_string() }]),
        },
        3,
    )
    .unwrap();
}

#[test]
fn record_relations_list_address_label_and_value() {
    let mut f = factory();
    create(&mut f, 1, "a0");
    relate(&mut f, "a0", "likes", None, "carol");
    relate(&mut f, "a0", "knows", Some(IndexValue::Bool(true)), "bob");
    relate(&mut f, "a0", "knows", Some(IndexValue::Bool(false)), "bob");
    let r = query_contract_relations(
        &f,
        ContractRelationsQueryParams { contract: "a0".to_string(), cursor: None, start: None, stop: None, limit: None, desc: None },
    )
    .unwrap();
    let rows: Vec<(String, String)> = r.relations.iter().map(|x| (x.name.clone(), x.address.clone())).collect();
    assert_eq!(
        rows,
        vec![
            ("knows".to_string(), "bob".to_string()),
            ("knows".to_string(), "bob".to_string()),
            ("likes".to_string(), "carol".to_string()),
        ]
    );
    assert!(matches!(r.relations[0].value, Some(IndexValue::Bool(false))));
    assert!(matches!(r.relations[1].value, Some(IndexValue::Bool(true))));
    assert!(r.relations[2].value.is_none());
    assert!(r.cursor.is_none());
    let full = query_contract_relations(
        &f,
        ContractRelationsQueryParams { contract: "a0".to_string(), cursor: None, start: None, stop: None, limit: Some(3), desc: None },
    )
    .unwrap();
    let (edge, addr) = full.cursor.expect("full page");
    assert_eq!(addr, "carol");
    assert_eq!(edge.len(), 128);
    let first = query_contract_relations(
        &f,
        ContractRelationsQueryParams { contract: "a0".to_string(), cursor: None, start: None, stop: None, limit: Some(1), desc: None },
    )
    .unwrap();
    let next = query_contract_relations(
        &f,
        ContractRelationsQueryParams { contract: "a0".to_string(), cursor: first.cursor, start: None, stop: None, limit: None, desc: None },
    )
    .unwrap();
    assert_eq!(next.relations.len(), 2);
}

#[test]
fn related_to_pages_by_cursor() {
    let mut f = factory();
    for a in ["r0", "r1", "r2"] {
        create(&mut f, 1, a);
        relate(&mut f, a, "follows", None, "star");
    }
    let page = |cursor, limit| {
        query_contracts_related_to(
            &f,
            ContractsRelatedToParams { cursor, limit: Some(limit), desc: None, address: "star".to_string(), start: None, stop: None },
        )
        .unwrap()
    };
    let first = page(None, 2);
    assert_eq!(first.addresses, vec!["r0", "r1"]);
    let c = first.cursor.clone().expect("full page");
    assert_eq!(c.0, 1);
    let second = page(Some(c), 2);
    assert_eq!(second.addresses, vec!["r2"]);
    assert!(second.cursor.is_none());
    let bounded = query_contracts_related_to(
        &f,
        ContractsRelatedToParams {
            cursor: None,
            limit: None,
            desc: Some(true),
            address: "star".to_string(),
            start: Some(RangeQueryBound::Inclusive(NameValue { name: "follows".to_string(), value: None })),
            stop: None,
        },
    )
    .unwrap();
    assert_eq!(bounded.addresses, vec!["r2", "r1", "r0"]);
}

#[test]
fn migrate_one_respects_the_source_filter() {
    let mut f = factory();
    create(&mut f, 1, "a0");
    let p = |from| SingletonMigrationParams { to_code_id: 3, from_code_id: from, migrate_msg: Some(vec![7]), contract: "a0".to_string() };
    let cmd = exec_migrate_one(&f, p(Some(1))).unwrap().expect("code matches");
    assert_eq!((cmd.contract.as_str(), cmd.new_code_id, cmd.msg), ("a0", 3, Some(vec![7])));
    assert!(exec_migrate_one(&f, p(Some(2))).unwrap().is_none());
    assert!(exec_migrate_one(&f, p(None)).unwrap().is_some());
    let missing = SingletonMigrationParams { to_code_id: 3, from_code_id: None, migrate_msg: None, contract: "zz".to_string() };
    assert!(matches!(exec_migrate_one(&f, missing), Err(ContractError::NotFound)));
}

#[test]
fn only_the_manager_sets_the_config() {
    let mut f = factory();
    let cfg = || Config { managed_by: "new".to_string(), default_code_id: None, allowed_code_ids: vec![] };
    assert!(matches!(f.exec_set_config(&"x".to_string(), cfg()), Err(ContractError::NotAuthorized { .. })));
    assert!(f.exec_set_config(&"boss".to_string(), cfg()).is_ok());
    assert_eq!(f.config().managed_by, "new");
}

#[test]
fn retry_with_new_parameters_keeps_the_name() {
    let mut f = factory();
    create(&mut f, 1, "a0");
    let mut ms = Migrations::new();
    let name = "s".to_string();
    let params = |name: &str, to| MigrationParams {
        name: name.to_string(),
        batch_size: Some(0),
        error_strategy: MigrationErrorStrategy::Retry,
        migrate_msg: None,
        from_code_id: None,
        to_code_id: to,
    };
    ms.exec_begin_migration(&f, params("s", 2)).unwrap();
    let s = ms.query_migration_session(&f, &name).unwrap();
    assert_eq!(s.params.batch_size, Some(1));
    let cmds = ms.exec_step_migration(&mut f, &name).unwrap();
    ms.handle_migration_reply(&f, cmds[0].reply_id, Err("x".to_string())).unwrap();
    let retry = ms.exec_retry_migration(&mut f, &name, Some(params("other", 8))).unwrap();
    assert_eq!(retry.len(), 1);
    assert_eq!(retry[0].new_code_id, 8);
    let s = ms.query_migration_session(&f, &name).unwrap();
    assert_eq!(s.params.name, "s");
    assert_eq!(s.params.to_code_id, 8);
    assert_eq!(s.retry_cursor, Some(0));
}

#[test]
fn metadata_records_creation_and_last_update() {
    let mut f = factory();
    let cmd = f
        .exec_create(
            &"alice".to_string(),
            &"factory".to_string(),
            CreateMsg { code_id: None, instantiate_msg: vec![], name: Some("n".to_string()), label: "l".to_string(), admin: Some("adm".to_string()) },
        )
        .unwrap();
    assert_eq!(cmd.code_id, 1);
    f.handle_creation_reply(cmd.reply_id, "a0".to_string(), 40).unwrap();
    let m = query_contract_metadata(&f, &"a0".to_string()).unwrap();
    assert_eq!((m.created_at, m.updated_at, m.code_id), (40, 40, 1));
    assert_eq!((m.created_by.as_str(), m.admin.as_str()), ("alice", "adm"));
    assert_eq!(m.name, Some("n".to_string()));
    exec_update(&mut f, &"a0".to_string(), UpdateMsg { contract: None, indices: None, relations: None, tags: None }, 77).unwrap();
    let m = query_contract_metadata(&f, &"a0".to_string()).unwrap();
    assert_eq!((m.created_at, m.updated_at), (40, 77));
    assert_eq!(f.resolve(&cw_factory::msg::ContractSelector::Name("n".to_string())).unwrap(), 0);
    assert!(matches!(query_contract_metadata(&f, &"zz".to_string()), Err(ContractError::NotFound)));
}

#[test]
fn a_tag_cut_inside_a_character_cannot_be_listed() {
    let mut f = factory();
    create(&mut f, 1, "a0");
    let tag = format!("a{}", "é".repeat(64));
    put_tags(&mut f, "a0", &[(tag.as_str(), 1)]);
    let r = query_contract_tags(
        &f,
        ContractTagsQueryParams { contract: "a0".to_string(), cursor: None, start: None, stop: None, limit: None, desc: None },
    );
    assert!(matches!(r, Err(ContractError::InvalidUtf8)));
}

#[test]
fn an_address_or_name_is_registered_once() {
    let mut f = factory();
    create(&mut f, 1, "a0");
    let cmd = f
        .exec_create(
            &"boss".to_string(),
            &"factory".to_string(),
            CreateMsg { code_id: None, instantiate_msg: vec![], name: Some("n".to_string()), label: "l".to_string(), admin: None },
        )
        .unwrap();
    assert!(matches!(f.handle_creation_reply(cmd.reply_id, "a0".to_string(), 1), Err(ContractError::AlreadyRegistered)));
    assert_eq!(f.handle_creation_reply(cmd.reply_id, "a1".to_string(), 1).unwrap(), 1);
    let again = f
        .exec_create(
            &"boss".to_string(),
            &"factory".to_string(),
            CreateMsg { code_id: None, instantiate_msg: vec![], name: Some("n".to_string()), label: "l".to_string(), admin: None },
        )
        .unwrap();
    assert!(matches!(f.handle_creation_reply(again.reply_id, "a2".to_string(), 1), Err(ContractError::AlreadyRegistered)));
}
