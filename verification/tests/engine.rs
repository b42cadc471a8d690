use sqlite_rs::codec::{db_open_from_image, page_from_bytes, page_to_bytes, table_to_bytes};
use sqlite_rs::constant::{LEAF_NODE_LEFT_SPLIT_COUNT, LEAF_NODE_MAX_CELLS, LEAF_NODE_RIGHT_SPLIT_COUNT, PAGE_SIZE};
use sqlite_rs::result::ExecuteResult;
use sqlite_rs::row::Row;
use sqlite_rs::statement::{execute_insert, execute_select, execute_statement, prepare_statement, Statement, StatementType};
use sqlite_rs::table::{db_init, Table, TreeEntry};

fn insert(table: &mut Table, id: u32, username: &str, email: &str) -> ExecuteResult {
    let statement = Statement {
        stmt_type: StatementType::StatementInsert,
        row_to_insert: Some(Row {
            id,
            username: username.as_bytes().to_vec(),
            email: email.as_bytes().to_vec(),
        }),
    };
    execute_insert(&statement, table)
}

fn selected(table: &Table) -> Vec<(u32, String, String)> {
    execute_select(table)
        .into_iter()
        .map(|r| {
            (r.id, String::from_utf8(r.username).unwrap(), String::from_utf8(r.email).unwrap())
        })
        .collect()
}

#[test]
fn empty_select() {
    let table = db_init();
    assert_eq!(selected(&table), vec![]);
}

#[test]
fn single_insert_select() {
    let mut table = db_init();
    assert_eq!(insert(&mut table, 1, "alice", "a@x"), ExecuteResult::ExecuteSuccess);
    assert_eq!(selected(&table), vec![(1, "alice".to_string(), "a@x".to_string())]);
}

#[test]
fn out_of_order_inserts_sort_on_select() {
    let mut table = db_init();
    assert_eq!(insert(&mut table, 3, "c", "c@x"), ExecuteResult::ExecuteSuccess);
    assert_eq!(insert(&mut table, 1, "a", "a@x"), ExecuteResult::ExecuteSuccess);
    assert_eq!(insert(&mut table, 2, "b", "b@x"), ExecuteResult::ExecuteSuccess);
    assert_eq!(
        selected(&table),
        vec![
            (1, "a".to_string(), "a@x".to_string()),
            (2, "b".to_string(), "b@x".to_string()),
            (3, "c".to_string(), "c@x".to_string()),
        ]
    );
}

#[test]
fn duplicate_key_rejected_and_tree_untouched() {
    let mut table = db_init();
    assert_eq!(insert(&mut table, 1, "a", "a@x"), ExecuteResult::ExecuteSuccess);
    let image_before = table_to_bytes(&table);
    assert_eq!(insert(&mut table, 1, "other", "o@x"), ExecuteResult::ExecuteDuplicateKey);
    let image_after = table_to_bytes(&table);
    assert_eq!(image_before, image_after);
    assert_eq!(selected(&table), vec![(1, "a".to_string(), "a@x".to_string())]);
}

#[test]
fn duplicate_key_across_leaves() {
    let mut table = db_init();
    for id in 1..=(LEAF_NODE_MAX_CELLS as u32 + 1) {
        assert_eq!(insert(&mut table, id, "u", "e@x"), ExecuteResult::ExecuteSuccess);
    }
    for id in 1..=(LEAF_NODE_MAX_CELLS as u32 + 1) {
        assert_eq!(insert(&mut table, id, "u", "e@x"), ExecuteResult::ExecuteDuplicateKey);
    }
}

#[test]
fn execute_statement_dispatches() {
    let mut table = db_init();
    let stmt = prepare_statement("insert 5 eve e@x").unwrap().unwrap();
    let (result, rows) = execute_statement(stmt, &mut table);
    assert_eq!(result, ExecuteResult::ExecuteSuccess);
    assert!(rows.is_empty());
    let stmt = prepare_statement("select").unwrap().unwrap();
    let (result, rows) = execute_statement(stmt, &mut table);
    assert_eq!(result, ExecuteResult::ExecuteSuccess);
    assert_eq!(rows.len(), 1);
    assert_eq!(rows[0].id, 5);
}

#[test]
fn boundary_rows_accepted() {
    let mut table = db_init();
    assert_eq!(insert(&mut table, 0, "", ""), ExecuteResult::ExecuteSuccess);
    let username = "u".repeat(31);
    let email = "e".repeat(254);
    assert_eq!(insert(&mut table, 1, &username, &email), ExecuteResult::ExecuteSuccess);
    let rows = selected(&table);
    assert_eq!(rows[0], (0, String::new(), String::new()));
    assert_eq!(rows[1], (1, username, email));
}

#[test]
fn leaf_split_creates_new_root() {
    let mut table = db_init();
    let n = LEAF_NODE_MAX_CELLS as u32 + 1;
    for id in 1..=n {
        assert_eq!(insert(&mut table, id, "u", "e@x"), ExecuteResult::ExecuteSuccess);
    }
    let entries = table.tree_entries();
    assert_eq!(entries[0], TreeEntry::InternalHeader { indent: 0, num_keys: 1 });
    let mut leaf_sizes = vec![];
    let mut separators = vec![];
    for e in &entries {
        match e {
            TreeEntry::LeafHeader { num_cells, .. } => leaf_sizes.push(*num_cells),
            TreeEntry::InternalKey { key, .. } => separators.push(*key),
            _ => {}
        }
    }
    assert_eq!(leaf_sizes, vec![LEAF_NODE_LEFT_SPLIT_COUNT, LEAF_NODE_RIGHT_SPLIT_COUNT]);
    assert_eq!(separators, vec![LEAF_NODE_LEFT_SPLIT_COUNT as u32]);
    // keys partition: the left leaf holds 1..=7, the right 8..=14
    let keys: Vec<u32> = entries
        .iter()
        .filter_map(|e| match e {
            TreeEntry::LeafKey { key, .. } => Some(*key),
            _ => None,
        })
        .collect();
    assert_eq!(keys, (1..=n).collect::<Vec<u32>>());
    assert_eq!(selected(&table).len(), n as usize);
}

#[test]
fn further_splits_add_siblings() {
    let mut table = db_init();
    let n = 3 * LEAF_NODE_MAX_CELLS as u32;
    for id in (1..=n).rev() {
        assert_eq!(insert(&mut table, id, "u", "e@x"), ExecuteResult::ExecuteSuccess);
    }
    let rows = selected(&table);
    assert_eq!(rows.len(), n as usize);
    for (i, row) in rows.iter().enumerate() {
        assert_eq!(row.0, i as u32 + 1);
    }
    let entries = table.tree_entries();
    let leaf_count =
        entries.iter().filter(|e| matches!(e, TreeEntry::LeafHeader { .. })).count();
    assert!(leaf_count >= 3);
}

#[test]
fn persistence_across_restart() {
    let mut table = db_init();
    assert_eq!(insert(&mut table, 2, "bob", "b@x"), ExecuteResult::ExecuteSuccess);
    assert_eq!(insert(&mut table, 1, "al", "a@x"), ExecuteResult::ExecuteSuccess);
    assert_eq!(insert(&mut table, 3, "cy", "c@x"), ExecuteResult::ExecuteSuccess);
    let image = table_to_bytes(&table);
    assert_eq!(image.len() % PAGE_SIZE, 0);
    let reopened = db_open_from_image(&image);
    assert_eq!(
        selected(&reopened),
        vec![
            (1, "al".to_string(), "a@x".to_string()),
            (2, "bob".to_string(), "b@x".to_string()),
            (3, "cy".to_string(), "c@x".to_string()),
        ]
    );
}

#[test]
fn persistence_across_restart_after_split() {
    let mut table = db_init();
    let n = 2 * LEAF_NODE_MAX_CELLS as u32;
    for id in 1..=n {
        assert_eq!(insert(&mut table, id, "user", "u@x"), ExecuteResult::ExecuteSuccess);
    }
    let image = table_to_bytes(&table);
    let reopened = db_open_from_image(&image);
    let rows = selected(&reopened);
    assert_eq!(rows.len(), n as usize);
    for (i, row) in rows.iter().enumerate() {
        assert_eq!(row.0, i as u32 + 1);
    }
    // writing again gives the same image
    assert_eq!(table_to_bytes(&reopened), image);
}

#[test]
fn empty_image_opens_fresh_database() {
    let table = db_open_from_image(&[]);
    assert_eq!(selected(&table), vec![]);
}

#[test]
fn page_codec_round_trip() {
    let mut table = db_init();
    for id in 1..=20 {
        assert_eq!(insert(&mut table, id, "name", "n@x"), ExecuteResult::ExecuteSuccess);
    }
    let image = table_to_bytes(&table);
    for i in 0..image.len() / PAGE_SIZE {
        let chunk = &image[i * PAGE_SIZE..(i + 1) * PAGE_SIZE];
        let page = page_from_bytes(chunk);
        let rewritten = page_to_bytes(&page);
        assert_eq!(rewritten.as_slice(), chunk);
    }
}

#[test]
fn table_fills_up_and_refuses() {
    let mut table = db_init();
    let mut stored: u32 = 0;
    let mut id: u32 = 0;
    loop {
        match insert(&mut table, id, "u", "e@x") {
            ExecuteResult::ExecuteSuccess => stored += 1,
            ExecuteResult::ExecuteTableFull => break,
            other => panic!("unexpected result {:?}", other),
        }
        id += 1;
        assert!(id < 10_000, "table never filled");
    }
    // a full table still answers selects and refuses duplicates
    assert_eq!(selected(&table).len(), stored as usize);
    assert_eq!(insert(&mut table, 0, "u", "e@x"), ExecuteResult::ExecuteDuplicateKey);
    // inserting into a leaf with room still works at capacity
    assert_eq!(table_to_bytes(&table).len(), 100 * PAGE_SIZE);
}

#[test]
fn fresh_database_tree_listing() {
    let table = db_init();
    assert_eq!(table.tree_entries(), vec![TreeEntry::LeafHeader { indent: 0, num_cells: 0 }]);
}

#[test]
fn tree_listing_single_leaf() {
    let mut table = db_init();
    for id in [2, 1, 3] {
        assert_eq!(insert(&mut table, id, "u", "e@x"), ExecuteResult::ExecuteSuccess);
    }
    assert_eq!(
        table.tree_entries(),
        vec![
            TreeEntry::LeafHeader { indent: 0, num_cells: 3 },
            TreeEntry::LeafKey { indent: 1, key: 1 },
            TreeEntry::LeafKey { indent: 1, key: 2 },
            TreeEntry::LeafKey { indent: 1, key: 3 },
        ]
    );
}

#[test]
fn checked_open_accepts_own_images_and_refuses_corrupt_ones() {
    let mut table = db_init();
    for id in 1..=(LEAF_NODE_MAX_CELLS as u32 + 1) {
        assert_eq!(insert(&mut table, id, "u", "e@x"), ExecuteResult::ExecuteSuccess);
    }
    let image = table_to_bytes(&table);
    assert!(sqlite_rs::codec::db_open_checked(&image).is_some());
    assert!(sqlite_rs::codec::db_open_checked(&[]).is_some());

    // breaking the sort order of a leaf is caught
    let mut corrupt = image.clone();
    let key_offset = 2 * PAGE_SIZE + 26; // first cell key of the left leaf
    for b in &mut corrupt[key_offset..key_offset + 4] {
        *b = 0xff;
    }
    assert!(sqlite_rs::codec::db_open_checked(&corrupt).is_none());
}
