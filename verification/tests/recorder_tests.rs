use rucimp::recorder::{
    Config as RecorderConfig, DataPiece, PayloadData, ProxyBehavior, Record, Recorder, RecordingConn, SaveFormat,
    SavePlan, SaveState, SerializableGlobalData, SimplifiedRecordData,
};
use rucimp::recorder2::{
    Config, OutputFileExtension, OutputFormat, RecordMode, Recorder as Recorder2,
};

fn piece(t: u128, n: usize, b: u8) -> DataPiece {
    DataPiece { nanos_since_start: t, data: PayloadData::Pure(vec![b; n]) }
}

#[test]
fn simplified_sorts_by_time_and_takes_data_out() {
    let mut r = Record::default();
    r.download_data = vec![piece(5, 2, 1), piece(20, 1, 2)];
    r.upload_data = vec![piece(10, 3, 3), piece(5, 1, 4)];
    r.no_truncate = Some(true);
    let s = SimplifiedRecordData::from(&mut r);
    assert!(r.download_data.is_empty());
    assert!(r.upload_data.is_empty());
    // equal times keep download before upload
    assert_eq!(
        s.data,
        vec![(-1, vec![1, 1]), (1, vec![4]), (1, vec![3, 3, 3]), (-1, vec![2])]
    );
}

#[test]
fn simplified_cuts_pieces_and_session() {
    let mut r = Record::default();
    r.label = Some("lab".to_string());
    r.piece_truncate = Some(4);
    r.session_truncate = Some(10);
    r.upload_data = vec![piece(1, 9, 1), piece(2, 3, 2), piece(3, 3, 3), piece(4, 3, 4)];
    let s = SimplifiedRecordData::from(&mut r);
    assert_eq!(s.label, Some("lab".to_string()));
    // pieces cut to 4 bytes; totals 4, 7, 10, 13: the fourth passes 10
    assert_eq!(s.data, vec![(1, vec![1; 4]), (1, vec![2; 3]), (1, vec![3; 3])]);
}

#[test]
fn simplified_keeps_all_when_under_limit() {
    let mut r = Record::default();
    r.upload_data = vec![piece(1, 10, 1), piece(2, 10, 2)];
    let s = SimplifiedRecordData::from(&mut r);
    assert_eq!(s.data, vec![(1, vec![1; 10]), (1, vec![2; 10])]);
    let mut d = Record::default();
    d.upload_data = vec![DataPiece { nanos_since_start: 5, data: PayloadData::Pure(vec![1, 2, 3]) }];
    let s = SimplifiedRecordData::from(&mut d);
    assert_eq!(s.data, vec![(1, vec![1, 2, 3])]);
    assert!(d.upload_data.is_empty());
}

#[test]
fn simplified_cuts_at_entry_past_session_limit() {
    let mut r = Record::default();
    r.session_truncate = Some(25);
    r.upload_data = vec![piece(1, 10, 1), piece(2, 10, 2), piece(3, 10, 3), piece(4, 1, 4)];
    let s = SimplifiedRecordData::from(&mut r);
    assert_eq!(s.data, vec![(1, vec![1; 10]), (1, vec![2; 10])]);
}

#[test]
fn simplified_keeps_nothing_when_first_is_over() {
    let mut r = Record::default();
    r.session_truncate = Some(1);
    r.piece_truncate = Some(100);
    r.upload_data = vec![piece(1, 5, 1), piece(2, 1, 2)];
    let s = SimplifiedRecordData::from(&mut r);
    assert!(s.data.is_empty());
}

#[test]
fn save_name_with_and_without_run_data() {
    let mut r = Record::default();
    r.cid = "7".to_string();
    r.label = Some("x".to_string());
    assert_eq!(r.save_name(), "logs/record_.x_7.json.log");
    r.global_data = Some(SerializableGlobalData { run_instance_id: 42, ..Default::default() });
    r.serialize_format = Some("cbor".to_string());
    assert_eq!(r.save_name(), "logs/record_42_x_7.cbor.log");
}

#[test]
fn recorder_skips_empty_data() {
    let mut rec = Recorder { data: Record::default() };
    rec.record_u(&[], 1);
    rec.record_u(&[1, 2], 2);
    rec.r_d_ad(&[3], "1.2.3.4:5", 3);
    assert_eq!(rec.data.upload_data.len(), 1);
    assert_eq!(rec.data.upload_data[0].nanos_since_start, 2);
    match &rec.data.download_data[0].data {
        PayloadData::Addr(a, d) => {
            assert_eq!(a, "1.2.3.4:5");
            assert_eq!(d, &vec![3]);
        }
        _ => panic!("expected an addressed piece"),
    }
}

#[test]
fn recorder2_modes_and_targets() {
    let config = Config {
        label: Some("l".to_string()),
        record_mode: RecordMode::Info,
        output_format: OutputFormat::Har,
        output_file_extension: OutputFileExtension::Cbor,
        ..Default::default()
    };
    let mut r = Recorder2::new(config, "c9".to_string(), ProxyBehavior::ENCODE, None);
    assert_eq!(r.cid(), "c9");
    assert_eq!(r.label(), "l");
    r.record_u(&[1, 2, 3], 10);
    r.record_d(&[1], 11);
    match &r {
        Recorder2::Info(i) => assert_eq!(i.data.payload.len(), 2),
        _ => panic!("expected an info recorder"),
    }
    let t = r.save_target();
    assert_eq!(t.file_name, "c9.har");
    assert!(t.as_har);
    assert_eq!(t.encoding, OutputFileExtension::Cbor);

    let plain = Recorder2::new(Config::default(), "z".to_string(), ProxyBehavior::DECODE, None);
    assert_eq!(plain.label(), "");
    assert_eq!(plain.save_target().file_name, "z.json");
}

#[test]
fn recorder_for_connection_and_datagrams() {
    let config = RecorderConfig {
        label: Some("l".to_string()),
        serialize_format: Some("cbor".to_string()),
        full_record: None,
        no_truncate: None,
        piece_truncate: Some(10),
        session_truncate: None,
    };
    let r = Recorder::for_connection(&config, "7".to_string(), ProxyBehavior::ENCODE, None);
    assert_eq!(r.data.cid, "7");
    assert_eq!(r.data.label.as_deref(), Some("l"));
    assert_eq!(r.data.piece_truncate, Some(10));
    assert!(r.data.file_prefix.is_none());
    let (a, b) = Recorder::for_datagrams(&config, "8".to_string(), ProxyBehavior::DECODE, None);
    assert_eq!(a.data.file_prefix.as_deref(), Some("ac_r"));
    assert_eq!(b.data.file_prefix.as_deref(), Some("ac_w"));
    assert_eq!(b.data.cid, "8");
}

#[test]
fn save_plan_follows_settings() {
    let mut config = RecorderConfig::default();
    config.serialize_format = Some("cbor".to_string());
    let mut r = Recorder::for_connection(&config, "1".to_string(), ProxyBehavior::ENCODE, None);
    assert!(matches!(r.data.save_plan(), SavePlan::Nothing));
    r.record_u(b"abc", 5);
    r.record_d(b"de", 2);
    match r.data.save_plan() {
        SavePlan::Simplified(SaveFormat::Cbor, sd) => {
            // in time order
            assert_eq!(sd.data, vec![(-1, b"de".to_vec()), (1, b"abc".to_vec())]);
        }
        _ => panic!("simplified cbor expected"),
    }
    config.full_record = Some(true);
    config.serialize_format = Some("yaml".to_string());
    let mut r = Recorder::for_connection(&config, "2".to_string(), ProxyBehavior::ENCODE, None);
    assert!(matches!(r.data.save_plan(), SavePlan::Full(SaveFormat::Json)));
}

#[test]
fn recording_conn_saves_once() {
    let r = Recorder::for_connection(&RecorderConfig::default(), "1".to_string(), ProxyBehavior::ENCODE, None);
    let mut c = RecordingConn::new(r);
    assert!(!c.on_read(b"xy", 3));
    c.on_written(b"z", 4);
    assert_eq!(c.recorder.data.download_data.len(), 1);
    assert_eq!(c.recorder.data.upload_data.len(), 1);
    assert!(c.on_read(b"", 5));
    assert_eq!(c.state, SaveState::SavingToFile);
    assert!(!c.is_open());
    assert!(!c.start_save());
    c.save_finished();
    assert_eq!(c.state, SaveState::Saved);
}
