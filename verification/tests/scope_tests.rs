use vaumototool::app::{csv_rows, frame_record, scope_records, scope_records_in_range, scope_separator, selected_channels, CsvError};
use vaumototool::rtmap::{RtPoint, ACHANELS};
use vaumototool::settings_write::{settings_text, AChannelText, DChannelText};

fn pt(timestamp: i64) -> RtPoint {
    RtPoint { nan: false, timestamp, achanels: vec![0; ACHANELS], digital: 0 }
}

#[test]
fn separator_is_first_zero() {
    assert_eq!(scope_separator(b"abc\0def\0"), 3);
    assert_eq!(scope_separator(b"\0"), 0);
    assert_eq!(scope_separator(b"abc"), 0);
    assert_eq!(scope_separator(b""), 0);
}

#[test]
fn framed_records_read_back() {
    let r1: Vec<u8> = (0..20).collect();
    let r2: Vec<u8> = (100..170).collect();
    let mut data = frame_record(r1.clone());
    assert_eq!(data[0], 20);
    assert_eq!(data.len(), 21);
    data.extend(frame_record(r2.clone()));
    assert!(scope_records_in_range(&data));
    let ranges = scope_records(&data).unwrap();
    assert_eq!(ranges, vec![(1, 21), (22, 92)]);
    assert_eq!(&data[ranges[0].0..ranges[0].1], &r1[..]);
    assert_eq!(&data[ranges[1].0..ranges[1].1], &r2[..]);
}

#[test]
fn frame_length_keeps_lowest_byte() {
    let r: Vec<u8> = vec![7; 300];
    let f = frame_record(r);
    assert_eq!(f[0], 44);
    assert_eq!(f.len(), 301);
}

#[test]
fn bad_record_length_is_an_error() {
    let mut data = frame_record(vec![1; 25]);
    data.push(19);
    data.extend(vec![0; 19]);
    assert!(scope_records_in_range(&data));
    assert!(scope_records(&data).is_err());
    assert!(scope_records(&[71]).is_err());
    assert_eq!(scope_records(&[]).unwrap(), vec![]);
}

#[test]
fn truncated_record_is_out_of_range() {
    let mut data = frame_record(vec![1; 25]);
    data.truncate(20);
    assert!(!scope_records_in_range(&data));
}

#[test]
fn csv_window_rows() {
    let rt: Vec<RtPoint> = [10, 20, 30, 40, 50].iter().map(|t| pt(*t)).collect();
    assert_eq!(csv_rows(&rt, Some(15), Some(40)), Ok((1, 4)));
    assert_eq!(csv_rows(&rt, Some(20), Some(20)), Ok((2, 2)));
    assert_eq!(csv_rows(&rt, None, Some(40)), Err(CsvError::NoTimestamps));
    assert_eq!(csv_rows(&rt, Some(1), None), Err(CsvError::NoTimestamps));
    assert_eq!(csv_rows(&rt, Some(40), Some(15)), Err(CsvError::StopBeforeStart));
    assert_eq!(csv_rows(&rt, Some(15), Some(50)), Err(CsvError::NoData));
    assert_eq!(csv_rows(&rt, Some(60), Some(70)), Err(CsvError::NoData));
}

#[test]
fn selected_channel_lists() {
    assert_eq!(selected_channels(&[true, false, true, true]), vec![0, 2, 3]);
    assert_eq!(selected_channels(&[false, false]), Vec::<usize>::new());
    assert_eq!(selected_channels(&[]), Vec::<usize>::new());
}

#[test]
fn scope_file_splits_after_the_settings_text() {
    let achs: Vec<AChannelText> = (0..16)
        .map(|i| AChannelText {
            name: format!("A{}", i).into_bytes(),
            color: (1, 2, 3, 255),
            view: true,
            view2: true,
            converter: b"1".to_vec(),
            reduction: b"1".to_vec(),
            reduction2: b"1".to_vec(),
        })
        .collect();
    let dchs: Vec<DChannelText> = (0..32)
        .map(|i| DChannelText { name: format!("D{}", i).into_bytes(), color: (0, 0, 0, 0), view: false, converter: b"2".to_vec() })
        .collect();
    let settings = settings_text(&achs, &dchs, 50);
    let rec: Vec<u8> = (0..30).collect();
    let mut data = settings.clone();
    data.push(0);
    data.extend(frame_record(rec.clone()));
    let sep = scope_separator(&data);
    assert_eq!(sep, settings.len());
    assert_eq!(&data[..sep], &settings[..]);
    let samples = &data[sep + 1..];
    assert_eq!(scope_records(samples).unwrap(), vec![(1, 31)]);
    assert_eq!(&samples[1..31], &rec[..]);
}
