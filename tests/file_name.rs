use bitcask_core::data_file::DataFile;
use bitcask_core::io::MemIoManager;

#[test]
fn file_name_pads_id_to_nine_digits() {
    assert_eq!(DataFile::<MemIoManager>::get_file_name("/data", 42), "/data/000000042.data");
    assert_eq!(DataFile::<MemIoManager>::get_file_name("/data", 0), "/data/000000000.data");
}

#[test]
fn file_name_keeps_ten_digit_ids_and_trailing_separator() {
    assert_eq!(DataFile::<MemIoManager>::get_file_name("/data/", 7), "/data/000000007.data");
    assert_eq!(DataFile::<MemIoManager>::get_file_name("/d", u32::MAX), "/d/4294967295.data");
    assert_eq!(DataFile::<MemIoManager>::get_file_name("", 123456789), "123456789.data");
}
