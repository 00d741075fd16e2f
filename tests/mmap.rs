use bitcask_core::data::{LogRecord, LogRecordStatus};
use bitcask_core::data_file::DataFile;
use bitcask_core::errors::Errors;
use bitcask_core::io::mmap::MMapIOManager;
use bitcask_core::io::IoManager;
use memmap2::MmapMut;

fn mapped(bytes: &[u8]) -> MMapIOManager {
    let mut m = MmapMut::map_anon(bytes.len()).unwrap();
    m.copy_from_slice(bytes);
    MMapIOManager::from_map(m.make_read_only().unwrap())
}

#[test]
fn test_read() {
    let mio = mapped(b"Hello, test!");
    assert_eq!(mio.size().unwrap(), 12);
    let mut buf = vec![0u8; 5];
    let bytes_read = mio.read(&mut buf, 7).unwrap();
    assert_eq!(bytes_read, 5);
    assert_eq!(buf, b"test!");
}

#[test]
fn mmap_read_past_end_is_out_of_bounds() {
    let mio = mapped(b"Hello, test!");
    let mut buf = vec![0u8; 5];
    assert_eq!(mio.read(&mut buf, 8), Err(Errors::OutOfBounds));
    assert_eq!(mio.read(&mut buf, 100), Err(Errors::OutOfBounds));
}

#[test]
fn mmap_write_and_sync_are_unsupported() {
    let mut mio = mapped(b"abc");
    assert_eq!(mio.write(b"more"), Err(Errors::Unsupported));
    assert_eq!(mio.sync(), Err(Errors::Unsupported));
    assert_eq!(mio.size(), Ok(3));
}

#[test]
fn mmap_data_file_reads_records() {
    let r1 = LogRecord { key: b"k1".to_vec(), val: b"v1".to_vec(), status: LogRecordStatus::Normal };
    let r2 = LogRecord { key: b"k2".to_vec(), val: b"gone".to_vec(), status: LogRecordStatus::Deleted };
    let mut bytes = r1.encode();
    bytes.extend_from_slice(&r2.encode());
    let mut df = DataFile::new(3, mapped(&bytes));
    assert_eq!(df.read(0).unwrap(), (r1.clone(), 11));
    assert_eq!(df.read(11).unwrap(), (r2, 13));
    assert_eq!(df.read(24), Err(Errors::ReadDataFileEOF));
    assert_eq!(df.write(&r1), Err(Errors::Unsupported));
    assert_eq!(df.write_offset, 0);
}
