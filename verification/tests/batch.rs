use odbc2parquet::buffer::{unpack_bytes_column, unpack_column, Bit, ParquetBuffer};
use odbc2parquet::plan::num_batches;
use odbc2parquet::resolve::{resolve_schema, ColumnDescriptor, LogicalKind, PhysicalKind};
use odbc2parquet::temporal::{parse_time, Date, Timestamp};
use odbc2parquet::EncodeError;

#[test]
fn buffer_starts_empty_and_resizes() {
    let mut pb = ParquetBuffer::new(500);
    assert_eq!(pb.def_levels.len(), 0);
    pb.set_num_rows_fetched(3);
    assert_eq!(pb.def_levels, vec![0, 0, 0]);
    assert_eq!(pb.values_i64.len(), 3);
    assert_eq!(pb.values_bytes_array.len(), 3);
    pb.set_num_rows_fetched(1);
    assert_eq!(pb.def_levels.len(), 1);
}

#[test]
fn packed_array_length_equals_present_count() {
    // For every validity pattern the packed value array is exactly as long
    // as the count of present markers, and shorter than the row count as
    // soon as one null appears.
    for pattern in 0u32..16 {
        let source: Vec<Option<i64>> = (0..4)
            .map(|row| {
                if pattern & (1 << row) != 0 {
                    Some(100 + row as i64)
                } else {
                    None
                }
            })
            .collect();
        let mut pb = ParquetBuffer::new(4);
        pb.set_num_rows_fetched(4);
        let count = pb.write_optional::<i64, i64>(&source);
        assert_eq!(count, pattern.count_ones() as usize);
        for row in 0..4 {
            assert_eq!(pb.def_levels[row], if source[row].is_some() { 1 } else { 0 });
        }
        let packed: Vec<i64> = source.iter().flatten().copied().collect();
        assert_eq!(&pb.values_i64[..count], &packed[..]);
        if source.iter().any(|v| v.is_none()) {
            assert!(count < 4);
        }
    }
}

#[test]
fn write_optional_converts_bits() {
    let mut pb = ParquetBuffer::new(3);
    pb.set_num_rows_fetched(3);
    let source = vec![Some(Bit(1)), None, Some(Bit(0))];
    let count = pb.write_optional::<bool, Bit>(&source);
    assert_eq!(count, 2);
    assert_eq!(pb.def_levels, vec![1, 0, 1]);
    assert_eq!(&pb.values_bool[..2], &[true, false]);
}

#[test]
fn write_decimal_packs_encodings() {
    let mut pb = ParquetBuffer::new(3);
    pb.set_num_rows_fetched(3);
    let source = vec![
        Some(b"12.3".to_vec()),
        None,
        Some(b"-12.3".to_vec()),
    ];
    let count = pb.write_decimal(&source, 2, 3).unwrap();
    assert_eq!(count, 2);
    assert_eq!(pb.def_levels, vec![1, 0, 1]);
    assert_eq!(pb.values_bytes_array[0], vec![0x00, 0x7B]);
    assert_eq!(pb.values_bytes_array[1], vec![0xFF, 0x85]);
}

#[test]
fn write_decimal_reports_row_of_first_failure() {
    let mut pb = ParquetBuffer::new(3);
    pb.set_num_rows_fetched(3);
    let source = vec![
        Some(b"1".to_vec()),
        None,
        Some(b"oops".to_vec()),
    ];
    assert_eq!(
        pb.write_decimal(&source, 2, 3),
        Err((2, EncodeError::MalformedDecimal))
    );
    let source = vec![Some(b"300".to_vec())];
    let mut pb = ParquetBuffer::new(1);
    pb.set_num_rows_fetched(1);
    assert_eq!(
        pb.write_decimal(&source, 1, 3),
        Err((0, EncodeError::DecimalOutOfRange))
    );
}

#[test]
fn write_optional_converts_temporal_values() {
    let mut pb = ParquetBuffer::new(3);
    pb.set_num_rows_fetched(3);

    let times = vec![
        Some(parse_time(&b"00:00:01.5".to_vec()).unwrap()),
        None,
        Some(parse_time(&b"01:00:00".to_vec()).unwrap()),
    ];
    let count = pb.write_optional::<i32, _>(&times);
    assert_eq!(count, 2);
    assert_eq!(pb.def_levels, vec![1, 0, 1]);
    assert_eq!(&pb.values_i32[..2], &[1500, 3_600_000]);

    pb.set_num_rows_fetched(2);
    let dates = vec![
        Some(Date { year: 1970, month: 1, day: 3 }),
        Some(Date { year: 1969, month: 12, day: 30 }),
    ];
    let count = pb.write_optional::<i32, _>(&dates);
    assert_eq!(count, 2);
    assert_eq!(&pb.values_i32[..2], &[2, -2]);

    pb.set_num_rows_fetched(1);
    let stamps = vec![Some(Timestamp {
        year: 1970,
        month: 1,
        day: 1,
        hour: 0,
        minute: 0,
        second: 2,
        fraction: 750_000_000,
    })];
    let count = pb.write_optional::<i64, _>(&stamps);
    assert_eq!(count, 1);
    assert_eq!(pb.values_i64[0], 2_750_000);
}

#[test]
fn unpack_is_the_inverse_of_packing() {
    // Exported arrays read back in give the rows, and packing those rows
    // again gives byte-identical arrays.
    let rows: Vec<Option<i64>> = vec![Some(5), None, Some(-7), None];
    let mut pb = ParquetBuffer::new(4);
    pb.set_num_rows_fetched(4);
    let count = pb.write_optional::<i64, i64>(&rows);
    let packed = pb.values_i64[..count].to_vec();
    let recovered = unpack_column(&pb.def_levels, &packed).unwrap();
    assert_eq!(recovered, rows);

    let texts: Vec<Option<Vec<u8>>> = vec![None, Some(b"ab".to_vec()), Some(b"".to_vec())];
    pb.set_num_rows_fetched(3);
    let count = pb.write_bytes_optional(&texts);
    let packed = pb.values_bytes_array[..count].to_vec();
    let recovered = unpack_bytes_column(&pb.def_levels, &packed).unwrap();
    assert_eq!(recovered, texts);
}

#[test]
fn unpack_rejects_mismatched_arrays() {
    // Two present markers but only one packed value.
    assert_eq!(unpack_column::<i64>(&vec![1, 1], &vec![42]), None);
    // One present marker but two packed values.
    assert_eq!(unpack_column::<i64>(&vec![0, 1], &vec![1, 2]), None);
    // A marker outside zero and one.
    assert_eq!(unpack_column::<i64>(&vec![2], &vec![1]), None);
}

/// The export scenario: a table `(country VARCHAR, population BIGINT)` with
/// rows `[("A", 1), (NULL, 2)]` moved with a batch size of one row gives
/// two row groups of one row each; the row group holding the null has
/// validity `[0]` and an empty packed value array. Re-encoding the same
/// source once more is byte-identical.
#[test]
fn two_rows_batch_size_one() {
    let schema = vec![
        ColumnDescriptor {
            name: "country".to_string(),
            primitive: true,
            nullable: true,
            logical: LogicalKind::Utf8,
            physical: PhysicalKind::ByteArray,
            type_length: 0,
            precision: 0,
            scale: 0,
        },
        ColumnDescriptor {
            name: "population".to_string(),
            primitive: true,
            nullable: true,
            logical: LogicalKind::Int64,
            physical: PhysicalKind::Int64,
            type_length: 0,
            precision: 0,
            scale: 0,
        },
    ];
    let layouts = resolve_schema(&schema).unwrap();
    assert_eq!(layouts.len(), 2);

    let countries: Vec<Option<Vec<u8>>> = vec![Some(b"A".to_vec()), None];
    let populations: Vec<Option<i64>> = vec![Some(1), Some(2)];

    let batch_size = 1;
    assert_eq!(num_batches(countries.len(), batch_size), 2);

    let mut pb = ParquetBuffer::new(batch_size);
    let mut row_groups = Vec::new();
    for batch in 0..2 {
        pb.set_num_rows_fetched(batch_size);
        let country_batch: Vec<Option<Vec<u8>>> = vec![countries[batch].clone()];
        let n_text = pb.write_bytes_optional(&country_batch);
        let text_def = pb.def_levels.clone();
        let packed_text: Vec<Vec<u8>> = pb.values_bytes_array[..n_text].to_vec();

        let population_batch: Vec<Option<i64>> = vec![populations[batch]];
        let n_int = pb.write_optional::<i64, i64>(&population_batch);
        let int_def = pb.def_levels.clone();
        let packed_int: Vec<i64> = pb.values_i64[..n_int].to_vec();

        row_groups.push((text_def, packed_text, int_def, packed_int));
    }

    // First row group: one present country, one present population.
    assert_eq!(row_groups[0].0, vec![1]);
    assert_eq!(row_groups[0].1, vec![b"A".to_vec()]);
    // Second row group: the null country leaves validity [0] and an empty
    // packed value array.
    assert_eq!(row_groups[1].0, vec![0]);
    assert!(row_groups[1].1.is_empty());
    assert_eq!(row_groups[1].2, vec![1]);
    assert_eq!(row_groups[1].3, vec![2]);

    // Moving the same source again produces byte-identical row groups.
    let mut pb2 = ParquetBuffer::new(batch_size);
    for batch in 0..2 {
        pb2.set_num_rows_fetched(batch_size);
        let country_batch: Vec<Option<Vec<u8>>> = vec![countries[batch].clone()];
        let n_text = pb2.write_bytes_optional(&country_batch);
        assert_eq!(row_groups[batch].0, pb2.def_levels);
        assert_eq!(row_groups[batch].1, pb2.values_bytes_array[..n_text].to_vec());
        let population_batch: Vec<Option<i64>> = vec![populations[batch]];
        let n_int = pb2.write_optional::<i64, i64>(&population_batch);
        assert_eq!(row_groups[batch].2, pb2.def_levels);
        assert_eq!(row_groups[batch].3, pb2.values_i64[..n_int].to_vec());
    }
}
