use tablestore::command::process_query;
use tablestore::index::BTreeIndex;
use tablestore::store::{Database, DbError};
use tablestore::table::{Column, Table};

fn toks(s: &str) -> Vec<String> {
    s.split_whitespace().map(|w| w.to_string()).collect()
}

fn col(name: &str, data_type: &str) -> Column {
    Column { name: name.to_string(), data_type: data_type.to_string() }
}

fn users_table() -> Table {
    Table {
        name: "users".to_string(),
        columns: vec![col("id", "STRING"), col("name", "STRING"), col("age", "INTEGER")],
        rows: Vec::new(),
    }
}

#[test]
fn scenario_end_to_end() {
    let mut db = Database::new(5000, 0);
    let r = process_query(&toks("CREATE TABLE users id STRING name STRING age INTEGER"), &mut db, 0);
    assert_eq!(r, "Table created successfully\n");
    let r = process_query(&toks("INSERT INTO users VALUES 1 John 30"), &mut db, 1);
    assert_eq!(r, "Data inserted successfully\n");
    let r = process_query(&toks("SELECT * FROM users"), &mut db, 2);
    assert_eq!(r, "id | name | age\n1 | John | 30\n");
    let r = process_query(&toks("SELECT * FROM users WHERE age = 30"), &mut db, 3);
    assert_eq!(r, "id | name | age\n1 | John | 30\n");
    let r = process_query(&toks("SELECT * FROM users WHERE age = 99"), &mut db, 4);
    assert_eq!(r, "id | name | age\n");
    let r = process_query(&toks("INSERT INTO users VALUES 2 Jane"), &mut db, 5);
    assert_eq!(r, "Error inserting data: Number of values doesn't match number of columns\n");
    let r = process_query(&toks("SELECT * FROM users"), &mut db, 6);
    assert_eq!(r, "id | name | age\n1 | John | 30\n");
}

#[test]
fn create_twice_fails_and_schema_survives() {
    let mut db = Database::new(5000, 0);
    assert!(db.create_table(users_table()).is_ok());
    let second = Table {
        name: "users".to_string(),
        columns: vec![col("other", "STRING")],
        rows: Vec::new(),
    };
    let r = db.create_table(second);
    match r {
        Err(DbError::AlreadyExists { table }) => assert_eq!(table, "users"),
        _ => panic!("expected AlreadyExists"),
    }
    // The first table's schema still answers.
    let rows = db.select(&"users".to_string(), &vec!["*".to_string()], None).unwrap();
    assert_eq!(rows, vec![vec!["id".to_string(), "name".to_string(), "age".to_string()]]);
}

#[test]
fn insert_succeeds_iff_arity_matches() {
    let mut db = Database::new(5000, 0);
    db.create_table(users_table()).unwrap();
    let short = vec!["1".to_string(), "John".to_string()];
    let r = db.insert(&"users".to_string(), short, 0);
    assert!(matches!(r, Err(DbError::SchemaMismatch)));
    let rows = db.select(&"users".to_string(), &vec!["*".to_string()], None).unwrap();
    assert_eq!(rows.len(), 1, "row count unchanged after mismatch");
    let full = vec!["1".to_string(), "John".to_string(), "30".to_string()];
    assert!(db.insert(&"users".to_string(), full, 0).is_ok());
    let rows = db.select(&"users".to_string(), &vec!["*".to_string()], None).unwrap();
    assert_eq!(rows.len(), 2);
    assert_eq!(rows[1], vec!["1".to_string(), "John".to_string(), "30".to_string()]);
}

#[test]
fn insert_into_missing_table() {
    let mut db = Database::new(5000, 0);
    let r = db.insert(&"ghosts".to_string(), vec!["1".to_string()], 0);
    match r {
        Err(e @ DbError::NotFound { .. }) => {
            assert_eq!(e.message(), "Table 'ghosts' not found");
        },
        _ => panic!("expected NotFound"),
    }
}

#[test]
fn snapshot_round_trip() {
    let mut db = Database::new(5000, 0);
    db.create_table(users_table()).unwrap();
    db.insert(
        &"users".to_string(),
        vec!["1".to_string(), "John".to_string(), "30".to_string()],
        0,
    )
    .unwrap();
    db.insert(
        &"users".to_string(),
        vec!["2".to_string(), "Jane".to_string(), "25".to_string()],
        0,
    )
    .unwrap();
    let image = db.take_snapshot();
    let mut reloaded = Database::from_snapshot(&image, 5000, 100);
    let before = db.select(&"users".to_string(), &vec!["*".to_string()], None).unwrap();
    let after = reloaded.select(&"users".to_string(), &vec!["*".to_string()], None).unwrap();
    assert_eq!(before, after);
    // And the reloaded store keeps working, index included.
    reloaded
        .insert(
            &"users".to_string(),
            vec!["3".to_string(), "Mia".to_string(), "30".to_string()],
            100,
        )
        .unwrap();
    let filtered = reloaded
        .select(
            &"users".to_string(),
            &vec!["name".to_string()],
            Some(&toks("age = 30")),
        )
        .unwrap();
    assert_eq!(
        filtered,
        vec![vec!["name".to_string()], vec!["John".to_string()], vec!["Mia".to_string()]]
    );
}

#[test]
fn snapshot_of_empty_store_round_trips() {
    let mut db = Database::new(5000, 0);
    let image = db.take_snapshot();
    let reloaded = Database::from_snapshot(&image, 5000, 0);
    let r = reloaded.select(&"users".to_string(), &vec!["*".to_string()], None);
    assert!(matches!(r, Err(DbError::NotFound { .. })));
}

#[test]
fn corrupt_snapshot_yields_empty_store() {
    let garbage = vec![7u8, 1, 2, 3];
    let db = Database::from_snapshot(&garbage, 5000, 0);
    let r = db.select(&"anything".to_string(), &vec!["*".to_string()], None);
    assert!(matches!(r, Err(DbError::NotFound { .. })));
}

#[test]
fn select_star_keeps_schema_order_and_insertion_order() {
    let mut db = Database::new(5000, 0);
    db.create_table(users_table()).unwrap();
    for (id, name, age) in [("9", "Zoe", "1"), ("2", "Abe", "2"), ("5", "Kim", "3")] {
        db.insert(
            &"users".to_string(),
            vec![id.to_string(), name.to_string(), age.to_string()],
            0,
        )
        .unwrap();
    }
    let rows = db.select(&"users".to_string(), &vec!["*".to_string()], None).unwrap();
    assert_eq!(rows[0], vec!["id".to_string(), "name".to_string(), "age".to_string()]);
    assert_eq!(rows[1][0], "9");
    assert_eq!(rows[2][0], "2");
    assert_eq!(rows[3][0], "5");
}

#[test]
fn select_projection_and_missing_column() {
    let mut db = Database::new(5000, 0);
    db.create_table(users_table()).unwrap();
    db.insert(
        &"users".to_string(),
        vec!["1".to_string(), "John".to_string(), "30".to_string()],
        0,
    )
    .unwrap();
    let rows = db
        .select(&"users".to_string(), &vec!["age".to_string(), "id".to_string()], None)
        .unwrap();
    assert_eq!(rows[0], vec!["age".to_string(), "id".to_string()]);
    assert_eq!(rows[1], vec!["30".to_string(), "1".to_string()]);
    let r = db.select(&"users".to_string(), &vec!["salary".to_string()], None);
    match r {
        Err(e @ DbError::ColumnNotFound { .. }) => {
            assert_eq!(e.message(), "One or more columns not found");
        },
        _ => panic!("expected ColumnNotFound"),
    }
}

#[test]
fn where_is_exact_string_equality() {
    let mut db = Database::new(5000, 0);
    db.create_table(users_table()).unwrap();
    db.insert(
        &"users".to_string(),
        vec!["1".to_string(), "John".to_string(), "30".to_string()],
        0,
    )
    .unwrap();
    db.insert(
        &"users".to_string(),
        vec!["2".to_string(), "john".to_string(), "30.0".to_string()],
        0,
    )
    .unwrap();
    // No numeric coercion: "30" never matches "30.0".
    let rows = db
        .select(&"users".to_string(), &vec!["id".to_string()], Some(&toks("age = 30")))
        .unwrap();
    assert_eq!(rows, vec![vec!["id".to_string()], vec!["1".to_string()]]);
    // Case-sensitive values.
    let rows = db
        .select(&"users".to_string(), &vec!["id".to_string()], Some(&toks("name = john")))
        .unwrap();
    assert_eq!(rows, vec![vec!["id".to_string()], vec!["2".to_string()]]);
}

#[test]
fn where_errors() {
    let mut db = Database::new(5000, 0);
    db.create_table(users_table()).unwrap();
    let r = db.apply_where_clause(&"users".to_string(), &toks("age ="));
    match r {
        Err(e @ DbError::MalformedCommand) => {
            assert_eq!(e.message(), "Invalid WHERE clause syntax");
        },
        _ => panic!("expected MalformedCommand"),
    }
    let r = db.apply_where_clause(&"users".to_string(), &toks("age > 30"));
    match r {
        Err(e @ DbError::UnsupportedOperator { .. }) => {
            assert_eq!(e.message(), "Unsupported operator: >");
        },
        _ => panic!("expected UnsupportedOperator"),
    }
    let r = db.apply_where_clause(&"users".to_string(), &toks("salary = 30"));
    match r {
        Err(e @ DbError::ColumnNotFound { .. }) => {
            assert_eq!(e.message(), "Column 'salary' not found");
        },
        _ => panic!("expected ColumnNotFound"),
    }
    let r = db.apply_where_clause(&"ghosts".to_string(), &toks("age = 30"));
    assert!(matches!(r, Err(DbError::NotFound { .. })));
}

#[test]
fn sequential_inserts_grow_by_one_each() {
    let mut db = Database::new(5000, 0);
    db.create_table(users_table()).unwrap();
    let n = 25;
    for i in 0..n {
        let r = db.insert(
            &"users".to_string(),
            vec![format!("{}", i), format!("user_{}", i), "0".to_string()],
            0,
        );
        assert!(r.is_ok(), "insert {} must succeed exactly once", i);
    }
    let rows = db.select(&"users".to_string(), &vec!["id".to_string()], None).unwrap();
    assert_eq!(rows.len(), n + 1, "final row count equals N");
    // No two rows share a position: each id sits where it was appended.
    for i in 0..n {
        assert_eq!(rows[i + 1][0], format!("{}", i));
    }
}

#[test]
fn flush_policy_dirty_window() {
    let mut db = Database::new(1000, 0);
    db.create_table(users_table()).unwrap();
    // CREATE persists synchronously.
    assert!(db.flush_requested());
    let _ = db.take_snapshot();
    assert!(!db.flush_requested());
    // An insert inside the window defers the flush.
    db.insert(
        &"users".to_string(),
        vec!["1".to_string(), "John".to_string(), "30".to_string()],
        10,
    )
    .unwrap();
    assert!(!db.flush_requested());
    // One at (or past) the window's edge requests it.
    db.insert(
        &"users".to_string(),
        vec!["2".to_string(), "Jane".to_string(), "25".to_string()],
        1000,
    )
    .unwrap();
    assert!(db.flush_requested());
}

#[test]
fn keywords_are_case_insensitive() {
    let mut db = Database::new(5000, 0);
    let r = process_query(&toks("create table users id STRING name STRING age INTEGER"), &mut db, 0);
    assert_eq!(r, "Table created successfully\n");
    let r = process_query(&toks("insert into users values 1 John 30"), &mut db, 0);
    assert_eq!(r, "Data inserted successfully\n");
    let r = process_query(&toks("select * from users where age = 30"), &mut db, 0);
    assert_eq!(r, "id | name | age\n1 | John | 30\n");
}

#[test]
fn executor_error_lines() {
    let mut db = Database::new(5000, 0);
    let r = process_query(&toks("CREATE TABLE users id STRING name STRING age INTEGER"), &mut db, 0);
    assert_eq!(r, "Table created successfully\n");
    let r = process_query(&toks("CREATE TABLE users id STRING name STRING age INTEGER"), &mut db, 0);
    assert_eq!(r, "Error creating table: Table 'users' already exists\n");
    let r = process_query(&toks("SELECT * FROM ghosts"), &mut db, 0);
    assert_eq!(r, "Error executing query: Table 'ghosts' not found\n");
    let r = process_query(&toks("SELECT * FROM users WHERE age > 30"), &mut db, 0);
    assert_eq!(r, "Error executing query: Unsupported operator: >\n");
    let r = process_query(&toks("CREATE TABLE odd one"), &mut db, 0);
    assert_eq!(r, "Invalid CREATE TABLE syntax\n");
    let r = process_query(&toks("CREATE TABLE broken a STRING b"), &mut db, 0);
    assert_eq!(r, "Invalid CREATE TABLE syntax\n");
    let r = process_query(&toks("INSERT INTO users"), &mut db, 0);
    assert_eq!(r, "Invalid INSERT syntax\n");
    let r = process_query(&toks("SELECT * users"), &mut db, 0);
    assert_eq!(r, "Invalid SELECT syntax\n");
    let r = process_query(&toks("SELECT id FROM"), &mut db, 0);
    assert_eq!(r, "Invalid SELECT syntax\n");
    let r = process_query(&toks("DROP TABLE users"), &mut db, 0);
    assert_eq!(r, "Invalid query\n");
    let r = process_query(&Vec::new(), &mut db, 0);
    assert_eq!(r, "Invalid query\n");
}

#[test]
fn select_column_list_with_commas() {
    let mut db = Database::new(5000, 0);
    process_query(&toks("CREATE TABLE users id STRING name STRING age INTEGER"), &mut db, 0);
    process_query(&toks("INSERT INTO users VALUES 1 John 30"), &mut db, 0);
    let r = process_query(&toks("SELECT name , age FROM users"), &mut db, 0);
    assert_eq!(r, "name | age\nJohn | 30\n");
}

#[test]
fn multiple_tables_stay_apart() {
    let mut db = Database::new(5000, 0);
    process_query(&toks("CREATE TABLE products id INTEGER name STRING price FLOAT"), &mut db, 0);
    process_query(&toks("CREATE TABLE orders id INTEGER product_id INTEGER quantity INTEGER"), &mut db, 0);
    process_query(&toks("INSERT INTO products VALUES 1 Apple 0.5"), &mut db, 0);
    process_query(&toks("INSERT INTO products VALUES 2 Banana 0.3"), &mut db, 0);
    process_query(&toks("INSERT INTO orders VALUES 1 1 10"), &mut db, 0);
    let products = process_query(&toks("SELECT * FROM products"), &mut db, 0);
    assert!(products.contains("1 | Apple | 0.5"));
    assert!(products.contains("2 | Banana | 0.3"));
    let orders = process_query(&toks("SELECT * FROM orders"), &mut db, 0);
    assert!(orders.contains("1 | 1 | 10"));
    let by_price = process_query(&toks("SELECT name FROM products WHERE price = 0.5"), &mut db, 0);
    assert!(by_price.contains("Apple"));
    assert!(!by_price.contains("Banana"));
}

#[test]
fn index_groups_positions_by_key() {
    let mut ix = BTreeIndex::new();
    ix.insert("age:30".to_string(), 0);
    ix.insert("name:John".to_string(), 0);
    ix.insert("age:30".to_string(), 2);
    assert_eq!(ix.entries.len(), 2);
    assert_eq!(ix.entries[0].key, "age:30");
    assert_eq!(ix.entries[0].positions, vec![0, 2]);
    assert_eq!(ix.entries[1].key, "name:John");
    assert_eq!(ix.entries[1].positions, vec![0]);
}

#[test]
fn unicode_values_survive_the_snapshot() {
    let mut db = Database::new(5000, 0);
    process_query(&toks("CREATE TABLE cities name STRING country STRING"), &mut db, 0);
    process_query(&toks("INSERT INTO cities VALUES Zürich Schweiz"), &mut db, 0);
    process_query(&toks("INSERT INTO cities VALUES 東京 日本"), &mut db, 0);
    let image = db.take_snapshot();
    let mut reloaded = Database::from_snapshot(&image, 5000, 0);
    let r = process_query(&toks("SELECT name FROM cities WHERE country = 日本"), &mut reloaded, 0);
    assert_eq!(r, "name\n東京\n");
}
