use gzbdb::config::Config;
use gzbdb::error::Error;
use gzbdb::io::read_g_object;
use gzbdb::ipc::{BookDelete, RequestError, SharedData, WriterSend};

#[test]
fn config_keeps_its_directory() {
    let c = Config::new("/srv/store".to_string());
    assert_eq!(c.cwd, "/srv/store");
}

#[test]
fn errors_carry_their_reason() {
    assert_eq!(Error::new("failed-open_file").val, "failed-open_file");
    assert_eq!(Error::with_detail("failed-load_key=>", "bad").val, "failed-load_key=>bad");
    let r = RequestError { error: Error::new("timeout") };
    assert_eq!(r.error.val, "timeout");
}

#[test]
fn shared_data_is_empty() {
    let s = SharedData::new();
    let t = s.clone();
    assert_eq!(format!("{:?}", t), "SharedData");
}

#[test]
fn messages_hold_their_fields() {
    let d = BookDelete { id: "r1".to_string() };
    let w = WriterSend { id: 3, data: vec![1, 2] };
    assert_eq!(d.id, "r1");
    assert_eq!((w.id, w.data), (3, vec![1, 2]));
    read_g_object("/nowhere");
}
