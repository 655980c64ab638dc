use odbc2parquet::plan::{file_of_batch, num_batches, rows_in_batch};
use odbc2parquet::resolve::{
    parquet_type_to_odbc_buffer_desc, resolve_schema, BufferLayout, ColumnDescriptor, ConfigError,
    LogicalKind, PhysicalKind, SlotKind,
};
use odbc2parquet::statement::insert_statement_text;

fn column(name: &str, logical: LogicalKind, physical: PhysicalKind) -> ColumnDescriptor {
    ColumnDescriptor {
        name: name.to_string(),
        primitive: true,
        nullable: true,
        logical,
        physical,
        type_length: 0,
        precision: 0,
        scale: 0,
    }
}

#[test]
fn resolve_variable_text() {
    let c = column("title", LogicalKind::Utf8, PhysicalKind::ByteArray);
    assert_eq!(
        parquet_type_to_odbc_buffer_desc(&c),
        Ok(BufferLayout {
            slot_kind: SlotKind::FixedText { max_len: 128 },
            nullable: true,
        })
    );
}

#[test]
fn resolve_fixed_text_uses_declared_length() {
    let mut c = column("code", LogicalKind::Utf8, PhysicalKind::FixedLenByteArray);
    c.type_length = 10;
    c.nullable = false;
    assert_eq!(
        parquet_type_to_odbc_buffer_desc(&c),
        Ok(BufferLayout {
            slot_kind: SlotKind::FixedText { max_len: 10 },
            nullable: false,
        })
    );
    c.type_length = -1;
    assert_eq!(
        parquet_type_to_odbc_buffer_desc(&c),
        Err(ConfigError::InvalidLength)
    );
}

#[test]
fn resolve_bigint() {
    let c = column("population", LogicalKind::Int64, PhysicalKind::Int64);
    assert_eq!(
        parquet_type_to_odbc_buffer_desc(&c),
        Ok(BufferLayout {
            slot_kind: SlotKind::I64,
            nullable: true,
        })
    );
}

#[test]
fn resolve_rejects_outside_the_table() {
    let mut c = column("nested", LogicalKind::Utf8, PhysicalKind::ByteArray);
    c.primitive = false;
    assert_eq!(
        parquet_type_to_odbc_buffer_desc(&c),
        Err(ConfigError::UnsupportedType)
    );

    let c = column("odd", LogicalKind::Utf8, PhysicalKind::Int32);
    assert_eq!(
        parquet_type_to_odbc_buffer_desc(&c),
        Err(ConfigError::UnexpectedCombination)
    );

    let c = column("price", LogicalKind::Decimal, PhysicalKind::FixedLenByteArray);
    assert_eq!(
        parquet_type_to_odbc_buffer_desc(&c),
        Err(ConfigError::NotYetSupported(LogicalKind::Decimal))
    );
}

#[test]
fn resolve_is_idempotent() {
    // The same descriptor resolves to identical layouts every time.
    let c = column("title", LogicalKind::Utf8, PhysicalKind::ByteArray);
    assert_eq!(
        parquet_type_to_odbc_buffer_desc(&c),
        parquet_type_to_odbc_buffer_desc(&c)
    );
}

#[test]
fn resolve_schema_fails_fast_with_column_index() {
    let schema = vec![
        column("country", LogicalKind::Utf8, PhysicalKind::ByteArray),
        column("population", LogicalKind::Int64, PhysicalKind::Int64),
    ];
    let layouts = resolve_schema(&schema).unwrap();
    assert_eq!(layouts.len(), 2);
    assert_eq!(layouts[0].slot_kind, SlotKind::FixedText { max_len: 128 });
    assert_eq!(layouts[1].slot_kind, SlotKind::I64);

    let schema = vec![
        column("population", LogicalKind::Int64, PhysicalKind::Int64),
        column("when", LogicalKind::Date, PhysicalKind::Int32),
        column("country", LogicalKind::Utf8, PhysicalKind::ByteArray),
    ];
    assert_eq!(
        resolve_schema(&schema),
        Err((1, ConfigError::NotYetSupported(LogicalKind::Date)))
    );
}

#[test]
fn insert_statement() {
    let names = vec!["country".to_string(), "population".to_string()];
    assert_eq!(
        insert_statement_text("Birds", &names),
        "INSERT INTO Birds (country, population) VALUES (?, ?);"
    );
    let one = vec!["id".to_string()];
    assert_eq!(
        insert_statement_text("t", &one),
        "INSERT INTO t (id) VALUES (?);"
    );
    let none: Vec<String> = Vec::new();
    assert_eq!(insert_statement_text("t", &none), "INSERT INTO t () VALUES ();");
}

#[test]
fn batches_per_file_one_gives_one_file_per_batch() {
    // Three rows, one row per batch, one batch per file: three files,
    // each holding exactly one row.
    let rows = 3;
    let batch_size = 1;
    let n = num_batches(rows, batch_size);
    assert_eq!(n, 3);
    let mut files = Vec::new();
    for b in 0..n {
        assert_eq!(rows_in_batch(rows, batch_size, b), 1);
        files.push(file_of_batch(b, 1));
    }
    assert_eq!(files, vec![0, 1, 2]);
}

#[test]
fn batch_plan_shapes() {
    assert_eq!(num_batches(0, 500), 0);
    assert_eq!(num_batches(1, 500), 1);
    assert_eq!(num_batches(500, 500), 1);
    assert_eq!(num_batches(501, 500), 2);
    assert_eq!(rows_in_batch(501, 500, 0), 500);
    assert_eq!(rows_in_batch(501, 500, 1), 1);
    assert_eq!(file_of_batch(7, 3), 2);
}
