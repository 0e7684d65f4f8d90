use vaumototool::settings::{settings_line_in_range, settings_next, SettingsItem, SETTINGS_LINES};
use vaumototool::settings::SettingsError;
use vaumototool::settings_write::{apply_settings_item, read_settings, settings_text, AChannelText, DChannelText, SettingsRecord};

fn achannels() -> Vec<AChannelText> {
    (0..16)
        .map(|i| AChannelText {
            name: format!("Chanel {}", i + 11).into_bytes(),
            color: (200 + i as u8, 155, 155, 255),
            view: true,
            view2: false,
            converter: b"1.5".to_vec(),
            reduction: b"1".to_vec(),
            reduction2: b"0.25".to_vec(),
        })
        .collect()
}

fn dchannels() -> Vec<DChannelText> {
    (0..32)
        .map(|i| DChannelText {
            name: format!("D{}", i).into_bytes(),
            color: (1, 2, 3, 4),
            view: false,
            converter: format!("{}", 32 - i).into_bytes(),
        })
        .collect()
}

fn expected_text() -> String {
    let mut t = String::from("Version:1\r\n");
    for i in 0..16 {
        t.push_str(&format!("Name{}:Chanel {}\r\n", i, i + 11));
        t.push_str(&format!("Color RGBA:{}:155:155:255\r\n", 200 + i));
        t.push_str("Viewinchart:true\r\n");
        t.push_str("Viewinchart2:false\r\n");
        t.push_str("Converter:1.5\r\n");
        t.push_str("Reduction:1\r\n");
        t.push_str("Reduction2:0.25\r\n");
    }
    for i in 0..32 {
        t.push_str(&format!("Name{}:D{}\r\n", i, i));
        t.push_str("Color RGBA:1:2:3:4\r\n");
        t.push_str("ViewinDchart:false\r\n");
        t.push_str(&format!("Converter:{}\r\n", 32 - i));
    }
    t.push_str("Duration:50\r\n");
    for _ in 0..14 {
        t.push_str("Nop\r\n");
    }
    t
}

#[test]
fn settings_text_matches_the_file_layout() {
    let text = settings_text(&achannels(), &dchannels(), 50);
    assert_eq!(String::from_utf8(text).unwrap(), expected_text());
}

#[test]
fn settings_text_pads_to_256_lines() {
    let text = settings_text(&achannels(), &dchannels(), 50);
    assert_eq!(text.iter().filter(|&&b| b == b'\n').count(), 256);
    let empty = settings_text(&vec![], &vec![], 7);
    let s = String::from_utf8(empty).unwrap();
    assert_eq!(s.lines().count(), 256);
    assert!(s.starts_with("Version:1\r\nDuration:7\r\nNop\r\n"));
}

#[test]
fn settings_text_writes_extreme_numbers() {
    let mut a = achannels();
    a[0].color = (0, 9, 10, 255);
    let text = String::from_utf8(settings_text(&a, &dchannels(), usize::MAX)).unwrap();
    assert!(text.contains("Name0:Chanel 11\r\nColor RGBA:0:9:10:255\r\n"));
    assert!(text.contains(&format!("Duration:{}\r\n", usize::MAX)));
}

#[test]
fn settings_text_is_read_back() {
    let mut a = achannels();
    a[3].name = "Öl: Temp".as_bytes().to_vec();
    a[3].color = (0, 255, 7, 128);
    a[5].view = false;
    a[5].view2 = true;
    let mut d = dchannels();
    d[31].name = b"last:one".to_vec();
    d[31].view = true;
    let text = settings_text(&a, &d, 1234);
    let mut pos = 0;
    let mut items = vec![];
    for step in 0..SETTINGS_LINES {
        assert!(settings_line_in_range(&text, pos, step));
        let (item, next) = settings_next(&text, pos, step).unwrap();
        items.push(item);
        pos = next;
    }
    let range = |s: usize, e: usize| text[s..e].to_vec();
    for (i, ch) in a.iter().enumerate() {
        match items[1 + 7 * i] {
            SettingsItem::AName(j, s, e) => {
                assert_eq!(j, i);
                assert_eq!(range(s, e), ch.name);
            }
            _ => panic!("name expected"),
        }
        assert_eq!(items[2 + 7 * i], SettingsItem::AColor(i, ch.color.0, ch.color.1, ch.color.2, ch.color.3));
        assert_eq!(items[3 + 7 * i], SettingsItem::AView(i, ch.view));
        assert_eq!(items[4 + 7 * i], SettingsItem::AView2(i, ch.view2));
        match items[7 + 7 * i] {
            SettingsItem::AReduction2(j, s, e) => {
                assert_eq!(j, i);
                assert_eq!(range(s, e), ch.reduction2);
            }
            _ => panic!("factor expected"),
        }
    }
    for (i, ch) in d.iter().enumerate() {
        match items[113 + 4 * i] {
            SettingsItem::DName(j, s, e) => {
                assert_eq!(j, i);
                assert_eq!(range(s, e), ch.name);
            }
            _ => panic!("name expected"),
        }
        assert_eq!(items[114 + 4 * i], SettingsItem::DColor(i, 1, 2, 3, 4));
        assert_eq!(items[115 + 4 * i], SettingsItem::DView(i, ch.view));
    }
    assert_eq!(items[241], SettingsItem::Duration(1234));
}

fn blank_record() -> SettingsRecord {
    SettingsRecord {
        achs: (0..16)
            .map(|_| AChannelText {
                name: b"x".to_vec(),
                color: (9, 9, 9, 9),
                view: false,
                view2: true,
                converter: vec![],
                reduction: vec![],
                reduction2: vec![],
            })
            .collect(),
        dchs: (0..32).map(|_| DChannelText { name: vec![], color: (7, 7, 7, 7), view: true, converter: b"9".to_vec() }).collect(),
        duration: 3,
    }
}

fn same_record(r: &SettingsRecord, a: &[AChannelText], d: &[DChannelText], duration: usize) {
    assert_eq!(r.duration, duration);
    for (x, y) in r.achs.iter().zip(a) {
        assert_eq!(x.name, y.name);
        assert_eq!(x.color, y.color);
        assert_eq!((x.view, x.view2), (y.view, y.view2));
        assert_eq!((&x.converter, &x.reduction, &x.reduction2), (&y.converter, &y.reduction, &y.reduction2));
    }
    for (x, y) in r.dchs.iter().zip(d) {
        assert_eq!(x.name, y.name);
        assert_eq!(x.color, y.color);
        assert_eq!(x.view, y.view);
        assert_eq!(x.converter, y.converter);
    }
}

#[test]
fn written_settings_are_read_into_a_record() {
    let mut a = achannels();
    a[7].name = "Druck: vorn".as_bytes().to_vec();
    a[7].color = (0, 1, 2, 3);
    let d = dchannels();
    let text = settings_text(&a, &d, 77);
    let mut rec = blank_record();
    assert_eq!(read_settings(&text, &mut rec), Ok(()));
    same_record(&rec, &a, &d, 77);
}

#[test]
fn a_refused_line_keeps_what_was_read_before_it() {
    let text = settings_text(&achannels(), &dchannels(), 50);
    let mut broken = String::from_utf8(text).unwrap();
    broken = broken.replacen("Viewinchart2:false", "Viewinchart2:maybe", 1);
    let mut rec = blank_record();
    assert_eq!(read_settings(broken.as_bytes(), &mut rec), Err(SettingsError::Bool));
    assert_eq!(rec.achs[0].name, b"Chanel 11".to_vec());
    assert_eq!(rec.achs[0].color, (200, 155, 155, 255));
    assert!(rec.achs[0].view);
    assert!(rec.achs[0].view2);
    assert_eq!(rec.achs[1].name, b"x".to_vec());
    assert_eq!(rec.duration, 3);
}

#[test]
fn one_item_changes_one_field() {
    let mut rec = blank_record();
    apply_settings_item(&mut rec, b"abcdef", vaumototool::settings::SettingsItem::DName(4, 1, 3));
    assert_eq!(rec.dchs[4].name, b"bc".to_vec());
    assert!(rec.dchs[3].name.is_empty());
    apply_settings_item(&mut rec, b"", vaumototool::settings::SettingsItem::Duration(12));
    assert_eq!(rec.duration, 12);
}
