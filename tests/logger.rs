use db_unpacker::logger::StdErrLogger;

#[test]
fn logger_passes_every_record() {
    let l = StdErrLogger::new();
    assert!(l.enabled());
}
