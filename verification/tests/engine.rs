//! Tests for the schema codec and the writer/reader engines.

use tabula::{Cell, Column, ColumnDataType, Error, TabulaReader, TabulaWriter};

fn two_column_schema() -> Vec<Column> {
    vec![
        Column { name: "Column1".to_string(), data_type: ColumnDataType::String },
        Column { name: "Column2".to_string(), data_type: ColumnDataType::Number },
    ]
}

#[test]
fn it_works() {
    // buffer should be big enough to fit the whole test.
    let buf = vec![0u8; 10000];

    let columns = two_column_schema();

    let mut tablua = TabulaWriter::new(&columns, buf).unwrap();
    assert_eq!(tablua.columns().len(), 2);

    let res = tablua.write_record(&vec![
        Cell::String("hello, world!".to_string()),
        Cell::Number(1.0f64.to_bits()),
    ]);

    assert_eq!(res, Ok(()));

    let tablua = TabulaReader::new(tablua.into_inner()).unwrap();
    assert_eq!(tablua.columns().len(), 2);

    let mut tablua = tablua;
    let res = tablua.read_record();
    assert!(res.is_ok());
}

#[test]
fn column_type_tags() {
    assert_eq!(ColumnDataType::String.to_vec(), vec![0x01]);
    assert_eq!(ColumnDataType::Number.to_vec(), vec![0x02]);
    assert_eq!(ColumnDataType::read_from(&vec![0x01], 0), Ok((ColumnDataType::String, 1)));
    assert_eq!(ColumnDataType::read_from(&vec![0x02], 0), Ok((ColumnDataType::Number, 1)));
    assert_eq!(ColumnDataType::read_from(&vec![0x00], 0), Err(Error::InvalidColumnType));
    assert_eq!(ColumnDataType::read_from(&vec![0x03], 0), Err(Error::InvalidColumnType));
    assert_eq!(ColumnDataType::read_from(&vec![0xFF], 0), Err(Error::InvalidColumnType));
    assert_eq!(ColumnDataType::read_from(&vec![], 0), Err(Error::EOF));
}

#[test]
fn column_round_trip() {
    let col = Column { name: "price".to_string(), data_type: ColumnDataType::Number };
    let enc = col.to_vec();
    assert_eq!(enc, vec![0x02, 5, b'p', b'r', b'i', b'c', b'e']);
    let (dec, consumed) = Column::read_from(&enc, 0).unwrap();
    assert_eq!(dec.name, "price");
    assert_eq!(dec.data_type, ColumnDataType::Number);
    assert_eq!(consumed, enc.len());
}

#[test]
fn scenario_exact_bytes() {
    let mut w = TabulaWriter::new(&two_column_schema(), Vec::new()).unwrap();
    w.write_record(&vec![
        Cell::String("hello, world!".to_string()),
        Cell::Number(1.0f64.to_bits()),
    ])
    .unwrap();
    let bytes = w.into_inner();

    let mut expected: Vec<u8> = Vec::new();
    expected.push(0x02); // two columns
    expected.push(0x01); // Text tag
    expected.push(0x07); // name length
    expected.extend_from_slice(b"Column1");
    expected.push(0x02); // Number tag
    expected.push(0x07); // name length
    expected.extend_from_slice(b"Column2");
    expected.push(0x0D); // cell byte length, 13
    expected.extend_from_slice(b"hello, world!");
    expected.extend_from_slice(&[0x00, 0x00, 0x00, 0x00, 0x00, 0x00, 0xF0, 0x3F]);
    assert_eq!(bytes, expected);

    let mut r = TabulaReader::new(bytes).unwrap();
    let cols = r.columns();
    assert_eq!(cols.len(), 2);
    assert_eq!(cols[0].name, "Column1");
    assert_eq!(cols[0].data_type, ColumnDataType::String);
    assert_eq!(cols[1].name, "Column2");
    assert_eq!(cols[1].data_type, ColumnDataType::Number);
    let row = r.read_record().unwrap();
    assert_eq!(
        row,
        vec![Cell::String("hello, world!".to_string()), Cell::Number(1.0f64.to_bits())]
    );
}

#[test]
fn round_trip_many_rows() {
    let columns = vec![
        Column { name: "name".to_string(), data_type: ColumnDataType::String },
        Column { name: "x".to_string(), data_type: ColumnDataType::Number },
        Column { name: "note".to_string(), data_type: ColumnDataType::String },
    ];
    let rows = vec![
        vec![
            Cell::String("a".to_string()),
            Cell::Number(0.5f64.to_bits()),
            Cell::String("".to_string()),
        ],
        vec![
            Cell::String("längère".to_string()),
            Cell::Number((-2.25f64).to_bits()),
            Cell::String("second".to_string()),
        ],
        vec![
            Cell::String("".to_string()),
            Cell::Number(f64::MAX.to_bits()),
            Cell::String("third ✓".to_string()),
        ],
    ];

    let mut w = TabulaWriter::new(&columns, Vec::new()).unwrap();
    for row in &rows {
        assert_eq!(w.write_record(row), Ok(()));
    }

    let mut r = TabulaReader::new(w.into_inner()).unwrap();
    let cols = r.columns();
    assert_eq!(cols.len(), 3);
    for (i, c) in cols.iter().enumerate() {
        assert_eq!(c.name, columns[i].name);
        assert_eq!(c.data_type, columns[i].data_type);
    }
    for row in &rows {
        assert_eq!(r.read_record().as_ref(), Ok(row));
    }
    assert_eq!(r.read_record(), Err(Error::EOF));
}

#[test]
fn arity_mismatch_is_rejected_and_writes_nothing() {
    let mut w = TabulaWriter::new(&two_column_schema(), Vec::new()).unwrap();
    let header_len = w.data().len();
    assert_eq!(
        w.write_record(&vec![Cell::String("only one".to_string())]),
        Err(Error::InvalidRecordLength)
    );
    assert_eq!(
        w.write_record(&vec![
            Cell::String("a".to_string()),
            Cell::Number(0.0f64.to_bits()),
            Cell::Number(0.0f64.to_bits()),
        ]),
        Err(Error::InvalidRecordLength)
    );
    assert_eq!(w.write_record(&vec![]), Err(Error::InvalidRecordLength));
    // The sink gained nothing.
    assert_eq!(w.data().len(), header_len);
}

#[test]
fn type_mismatch_is_rejected() {
    let mut w = TabulaWriter::new(&two_column_schema(), Vec::new()).unwrap();
    // Number into a Text column.
    assert_eq!(
        w.write_record(&vec![Cell::Number(1.0f64.to_bits()), Cell::Number(1.0f64.to_bits())]),
        Err(Error::InvalidCellType)
    );
    // Text into a Number column.
    assert_eq!(
        w.write_record(&vec![
            Cell::String("a".to_string()),
            Cell::String("b".to_string()),
        ]),
        Err(Error::InvalidCellType)
    );
}

#[test]
fn mid_row_type_mismatch_leaves_partial_row() {
    let mut w = TabulaWriter::new(&two_column_schema(), Vec::new()).unwrap();
    let header_len = w.data().len();
    // First cell matches and is written; the second does not.
    assert_eq!(
        w.write_record(&vec![
            Cell::String("ok".to_string()),
            Cell::String("not a number".to_string()),
        ]),
        Err(Error::InvalidCellType)
    );
    assert_eq!(w.data().len(), header_len + 3); // varint(2) + "ok"
    // A mismatch on the very first cell writes nothing further.
    let len_now = w.data().len();
    assert_eq!(
        w.write_record(&vec![Cell::Number(0.0f64.to_bits()), Cell::Number(0.0f64.to_bits())]),
        Err(Error::InvalidCellType)
    );
    assert_eq!(w.data().len(), len_now);
}

#[test]
fn writer_overwrites_presized_buffer_from_the_start() {
    let presized = vec![0xAAu8; 64];
    let w = TabulaWriter::new(&two_column_schema(), presized).unwrap();
    let bytes = w.into_inner();
    // Header bytes overwrite the front; untouched tail keeps its contents.
    assert_eq!(bytes.len(), 64);
    assert_eq!(bytes[0], 0x02);
    assert_eq!(bytes[1], 0x01);
    assert_eq!(&bytes[3..10], b"Column1");
    assert_eq!(bytes[63], 0xAA);
}

#[test]
fn reading_past_the_last_row_is_eof() {
    let columns = vec![Column { name: "n".to_string(), data_type: ColumnDataType::Number }];
    let mut w = TabulaWriter::new(&columns, Vec::new()).unwrap();
    w.write_record(&vec![Cell::Number(42.0f64.to_bits())]).unwrap();
    let mut r = TabulaReader::new(w.into_inner()).unwrap();
    assert!(r.read_record().is_ok());
    assert_eq!(r.read_record(), Err(Error::EOF));
    assert_eq!(r.read_record(), Err(Error::EOF));
}

#[test]
fn empty_schema_writes_only_the_count() {
    let w = TabulaWriter::new(&vec![], Vec::new()).unwrap();
    assert_eq!(w.columns().len(), 0);
    let bytes = w.into_inner();
    assert_eq!(bytes, vec![0x00]);

    let mut r = TabulaReader::new(bytes).unwrap();
    assert_eq!(r.columns().len(), 0);
    assert_eq!(r.read_record(), Err(Error::EOF));
}

#[test]
fn reader_rejects_corrupt_headers() {
    // Unknown type tag.
    assert!(matches!(
        TabulaReader::new(vec![0x01, 0x03, 0x01, b'a']),
        Err(Error::InvalidColumnType)
    ));
    // Zero tag.
    assert!(matches!(
        TabulaReader::new(vec![0x01, 0x00, 0x01, b'a']),
        Err(Error::InvalidColumnType)
    ));
    // Header claims a column but the bytes end.
    assert!(matches!(TabulaReader::new(vec![0x02, 0x01, 0x01, b'a']), Err(Error::EOF)));
    // Name truncated.
    assert!(matches!(TabulaReader::new(vec![0x01, 0x01, 0x05, b'a']), Err(Error::EOF)));
    // Name is not UTF-8.
    assert!(matches!(
        TabulaReader::new(vec![0x01, 0x01, 0x02, 0xFF, 0xFE]),
        Err(Error::MalformedStream)
    ));
    // Empty input.
    assert!(matches!(TabulaReader::new(vec![]), Err(Error::EOF)));
}

#[test]
fn mid_row_truncation_is_malformed_not_eof() {
    let columns = vec![Column { name: "n".to_string(), data_type: ColumnDataType::Number }];
    let mut w = TabulaWriter::new(&columns, Vec::new()).unwrap();
    w.write_record(&vec![Cell::Number(1.0f64.to_bits())]).unwrap();
    let mut bytes = w.into_inner();
    // Cut the row short: 3 of its 8 bytes remain.
    bytes.truncate(bytes.len() - 5);
    let mut r = TabulaReader::new(bytes).unwrap();
    assert_eq!(r.read_record(), Err(Error::MalformedStream));
}

#[test]
fn cell_equality_follows_values() {
    assert_eq!(Cell::String("a".to_string()), Cell::String("a".to_string()));
    assert_ne!(Cell::String("a".to_string()), Cell::String("b".to_string()));
    assert_eq!(Cell::Number(1.0f64.to_bits()), Cell::Number(1.0f64.to_bits()));
    assert_ne!(Cell::Number(1.0f64.to_bits()), Cell::Number(2.0f64.to_bits()));
    assert_ne!(Cell::String("1".to_string()), Cell::Number(1.0f64.to_bits()));
}
