use sqlite_rs::constant::{EMAIL_SIZE, USERNAME_SIZE};
use sqlite_rs::result::{parse_meta_command, MetaCommand, PrepareResult};
use sqlite_rs::statement::{prepare_statement, StatementType};

fn prepared_row(cmd: &str) -> sqlite_rs::row::Row {
    let stmt = prepare_statement(cmd).unwrap().unwrap();
    assert_eq!(stmt.stmt_type, StatementType::StatementInsert);
    stmt.row_to_insert.unwrap()
}

#[test]
fn insert_parses_fields() {
    let row = prepared_row("insert 1 alice a@x");
    assert_eq!(row.id, 1);
    assert_eq!(row.username, b"alice".to_vec());
    assert_eq!(row.email, b"a@x".to_vec());
}

#[test]
fn select_parses() {
    let stmt = prepare_statement("select").unwrap().unwrap();
    assert_eq!(stmt.stmt_type, StatementType::StatementSelect);
    assert!(stmt.row_to_insert.is_none());
}

#[test]
fn select_prefix_counts() {
    let stmt = prepare_statement("select extra words").unwrap().unwrap();
    assert_eq!(stmt.stmt_type, StatementType::StatementSelect);
}

#[test]
fn unrecognized_keyword() {
    assert_eq!(prepare_statement("update 1 a b").unwrap_err(), PrepareResult::PrepareUnrecognized);
    assert_eq!(prepare_statement("").unwrap_err(), PrepareResult::PrepareUnrecognized);
}

#[test]
fn too_few_arguments_is_syntax_error() {
    assert_eq!(prepare_statement("insert 1 a").unwrap_err(), PrepareResult::PrepareSyntaxErr);
    assert_eq!(prepare_statement("insert").unwrap_err(), PrepareResult::PrepareSyntaxErr);
}

#[test]
fn non_numeric_id_is_invalid() {
    assert_eq!(prepare_statement("insert abc a b").unwrap_err(), PrepareResult::PrepareInvalidId);
    assert_eq!(prepare_statement("insert -1 a b").unwrap_err(), PrepareResult::PrepareInvalidId);
    assert_eq!(prepare_statement("insert 1x a b").unwrap_err(), PrepareResult::PrepareInvalidId);
}

#[test]
fn id_overflow_is_invalid() {
    assert_eq!(
        prepare_statement("insert 4294967296 a b").unwrap_err(),
        PrepareResult::PrepareInvalidId
    );
    let row = prepared_row("insert 4294967295 a b");
    assert_eq!(row.id, u32::MAX);
}

#[test]
fn id_zero_and_plus_sign_accepted() {
    assert_eq!(prepared_row("insert 0 a b").id, 0);
    assert_eq!(prepared_row("insert +17 a b").id, 17);
}

#[test]
fn string_length_boundaries() {
    let long_username = "u".repeat(USERNAME_SIZE);
    let cmd = format!("insert 1 {} e@x", long_username);
    assert_eq!(prepare_statement(&cmd).unwrap_err(), PrepareResult::PrepareStringTooLong);

    let max_username = "u".repeat(USERNAME_SIZE - 1);
    let cmd = format!("insert 1 {} e@x", max_username);
    assert_eq!(prepare_statement(&cmd).unwrap().unwrap().row_to_insert.unwrap().username.len(), 31);

    let long_email = "e".repeat(EMAIL_SIZE);
    let cmd = format!("insert 1 user {}", long_email);
    assert_eq!(prepare_statement(&cmd).unwrap_err(), PrepareResult::PrepareStringTooLong);

    let max_email = "e".repeat(EMAIL_SIZE - 1);
    let cmd = format!("insert 1 user {}", max_email);
    assert_eq!(prepare_statement(&cmd).unwrap().unwrap().row_to_insert.unwrap().email.len(), 254);
}

#[test]
fn double_space_makes_empty_token() {
    // split on single spaces: the empty second token is not a number
    assert_eq!(prepare_statement("insert  1 a b").unwrap_err(), PrepareResult::PrepareInvalidId);
}

#[test]
fn meta_commands_classify() {
    assert_eq!(parse_meta_command(".exit"), MetaCommand::MetaExit);
    assert_eq!(parse_meta_command(".constants"), MetaCommand::MetaConstants);
    assert_eq!(parse_meta_command(".btree"), MetaCommand::MetaBtree);
    assert_eq!(parse_meta_command(".quit"), MetaCommand::MetaUnknown);
    assert_eq!(parse_meta_command(".exit "), MetaCommand::MetaUnknown);
}
