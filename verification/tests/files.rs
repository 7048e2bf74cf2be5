//! What a database leaves behind, as files.

use regolith::engine::store::files::TableList;
use regolith::engine::store::{table_name, TableFile};
use regolith::engine::wal::{
    read_exact_or_truncated, read_wal_header, wal_filename, HeaderRead,
};
use regolith::{Db, ErrorKind, IoError, Options, Stored, WriteBatch, WriteOptions};

const LOG: &str = "wal_000000.log";

fn open(stored: Stored) -> Db {
    let opts = Options { write_buffer_size: 4 * 1024, ..Options::default() };
    Db::open(LOG, stored, opts).unwrap()
}

/// Take what was left apart into bytes, and put it together again.
fn through_files(left: Stored) -> Stored {
    let tables = left
        .table_files()
        .iter()
        .map(|table| {
            let image = table.image().unwrap();
            let again = TableFile::from_image(table.file_id(), table.level(), &image).unwrap();
            assert_eq!(again.file_id(), table.file_id());
            assert_eq!(again.level(), table.level());
            assert_eq!(again.num_entries(), table.num_entries());
            again
        })
        .collect();
    let log = left.log_bytes().to_vec();
    let begun_at = left.begun_at();
    Stored::from_parts(tables, log, begun_at).unwrap()
}

#[test]
fn a_database_survives_its_files() {
    let mut db = open(Stored::empty());
    let side = db.create_column_family("side").unwrap();
    for i in 0..100u32 {
        db.put(format!("k{i:03}").as_bytes(), &vec![i as u8; 100]).unwrap();
    }
    db.put_cf(&side, b"x", b"y").unwrap();
    db.delete_range(b"k010", b"k020").unwrap();
    db.delete(b"k050").unwrap();
    let seq = db.latest_sequence();

    let db = open(through_files(db.into_stored()));
    assert_eq!(db.latest_sequence(), seq);
    assert_eq!(db.get(b"k009").unwrap(), Some(vec![9u8; 100]));
    assert_eq!(db.get(b"k015").unwrap(), None);
    assert_eq!(db.get(b"k050").unwrap(), None);
    assert_eq!(db.get(b"k099").unwrap(), Some(vec![99u8; 100]));
    let side = db.column_family("side").unwrap();
    assert_eq!(db.get_cf(&side, b"x").unwrap(), Some(b"y".to_vec()));
    assert_eq!(db.scan(None, None).unwrap().len(), 89);
}

#[test]
fn unlogged_writes_survive_a_close_and_only_that() {
    let skip = WriteOptions { disable_wal: true, ..WriteOptions::default() };

    let mut db = open(Stored::empty());
    db.put_opt(&skip, b"k", b"v").unwrap();
    let db = open(through_files(db.into_stored()));
    assert_eq!(db.get(b"k").unwrap(), None);

    let mut db = open(Stored::empty());
    db.put_opt(&skip, b"k", b"v").unwrap();
    db.close().unwrap();
    let db = open(through_files(db.into_stored()));
    assert_eq!(db.get(b"k").unwrap(), Some(b"v".to_vec()));
}

#[test]
fn a_damaged_table_is_refused() {
    let mut db = open(Stored::empty());
    db.put(b"k", b"v").unwrap();
    db.put(b"l", b"w").unwrap();
    db.flush().unwrap();
    let left = db.into_stored();
    let table = &left.table_files()[0];
    let image = table.image().unwrap();

    let mut damaged = image.clone();
    damaged[20] ^= 1;
    let err = TableFile::from_image(table.file_id(), 0, &damaged).err().unwrap();
    assert_eq!(err.kind, ErrorKind::InvalidData);

    let err = TableFile::from_image(table.file_id(), 0, &image[..image.len() - 1]).err().unwrap();
    assert_eq!(err.kind, ErrorKind::InvalidData);
    assert_eq!(
        err.message,
        "table entries are torn, out of sequence, unprefixed, or too large to store"
    );
}

#[test]
fn tables_out_of_sequence_are_refused() {
    let mut db = open(Stored::empty());
    db.put(b"k", b"v1").unwrap();
    db.flush().unwrap();
    db.put(b"k", b"v2").unwrap();
    db.flush().unwrap();
    let left = db.into_stored();
    let mut tables: Vec<TableFile> = left
        .table_files()
        .iter()
        .map(|t| TableFile::from_image(t.file_id(), t.level(), &t.image().unwrap()).unwrap())
        .collect();
    assert_eq!(tables.len(), 2);
    tables.swap(0, 1);
    let err = Stored::from_parts(tables, Vec::new(), 0).err().unwrap();
    assert_eq!(err.kind, ErrorKind::InvalidData);
    assert_eq!(err.message, "tables are out of sequence");
}

#[test]
fn the_list_of_tables_reads_back() {
    let list = TableList { begun_at: 0x0102, tables: vec![(1, 0), (7, 6)] };
    let bytes = list.encode();
    assert_eq!(bytes.len(), 40);
    assert_eq!(&bytes[..8], &[2, 1, 0, 0, 0, 0, 0, 0]);
    let again = TableList::decode(&bytes).unwrap();
    assert_eq!(again.begun_at, 0x0102);
    assert_eq!(again.tables, vec![(1, 0), (7, 6)]);
    assert!(TableList::decode(&bytes[..39]).is_none());
    assert!(TableList::decode(&[]).is_none());
}

#[test]
fn files_are_named_after_their_numbers() {
    assert_eq!(table_name(1), "000001.sst");
    assert_eq!(wal_filename(42), "wal_000042.log");
}

#[test]
fn a_record_header_is_read_in_steps() {
    assert_eq!(read_wal_header(0, Ok(0)).unwrap(), HeaderRead::EndOfLog);
    assert_eq!(read_wal_header(0, Ok(2)).unwrap(), HeaderRead::More(2));
    assert_eq!(read_wal_header(2, Ok(3)).unwrap(), HeaderRead::Complete);
    let torn = read_wal_header(2, Ok(0)).unwrap_err();
    assert_eq!(torn.kind, ErrorKind::UnexpectedEof);
    assert_eq!(torn.message, "truncated WAL record header");
    let again = read_wal_header(3, Err(IoError::new(ErrorKind::Interrupted, "signal")));
    assert_eq!(again.unwrap(), HeaderRead::More(3));
    let failed = read_wal_header(3, Err(IoError::new(ErrorKind::NotFound, "gone"))).unwrap_err();
    assert_eq!(failed.kind, ErrorKind::NotFound);
}

#[test]
fn a_short_read_is_told_by_its_message() {
    assert!(read_exact_or_truncated(Ok(()), "short").is_ok());
    let short = IoError::new(ErrorKind::UnexpectedEof, "failed to fill whole buffer");
    let err = read_exact_or_truncated(Err(short), "truncated WAL record data").unwrap_err();
    assert_eq!(err.message, "truncated WAL record data");
    let other = IoError::new(ErrorKind::PermissionDenied, "no");
    assert_eq!(read_exact_or_truncated(Err(other), "short").unwrap_err().message, "no");
}

#[test]
fn a_torn_log_costs_whole_writes_from_its_end() {
    let mut db = open(Stored::empty());
    let mut ends = vec![db.log_bytes().len()];
    for i in 0..4u8 {
        let mut batch = WriteBatch::new();
        batch.put(&[b'a', i], b"1");
        batch.put(&[b'b', i], b"2");
        db.write(batch).unwrap();
        ends.push(db.log_bytes().len());
    }
    let whole = db.log_bytes().to_vec();
    for cut in ends[0]..=whole.len() {
        let survived = ends.iter().filter(|end| **end <= cut).count() - 1;
        let db = open(Stored::from_log(whole[..cut].to_vec()));
        assert_eq!(db.latest_sequence(), 2 * survived as u64, "cut at {cut}");
        assert_eq!(db.scan(None, None).unwrap().len(), 2 * survived, "cut at {cut}");
    }
}
