use vaumototool::settings::{settings_line_in_range, settings_next, IntError, SettingsError, SettingsItem, SETTINGS_LINES};

fn settings_text() -> String {
    let mut t = String::from("Version:1\r\n");
    for i in 0..16 {
        t.push_str(&format!("Name{}:Chanel {}\r\n", i, i + 11));
        t.push_str(&format!("Color RGBA:{}:155:155:255\r\n", 200 + i));
        t.push_str("Viewinchart:true\r\n");
        t.push_str("Viewinchart2:false\r\n");
        t.push_str("Converter:1.5\r\n");
        t.push_str("Reduction:1\r\n");
        t.push_str("Reduction2:0.25\r\n");
    }
    for i in 0..32 {
        t.push_str(&format!("Name{}:D{}\r\n", i, i));
        t.push_str("Color RGBA:1:2:3:4\r\n");
        t.push_str("ViewinDchart:false\r\n");
        t.push_str(&format!("Converter:{}\r\n", 32 - i));
    }
    t.push_str("Duration:50\r\n");
    for _ in 0..14 {
        t.push_str("Nop\r\n");
    }
    t
}

fn read_all(text: &str) -> Result<Vec<SettingsItem>, (usize, SettingsError)> {
    let b = text.as_bytes();
    let mut pos = 0;
    let mut items = vec![];
    for step in 0..SETTINGS_LINES {
        assert!(settings_line_in_range(b, pos, step));
        match settings_next(b, pos, step) {
            Ok((item, next)) => {
                items.push(item);
                pos = next;
            }
            Err(e) => return Err((step, e)),
        }
    }
    Ok(items)
}

#[test]
fn reads_every_line_of_a_written_file() {
    let text = settings_text();
    let items = read_all(&text).unwrap();
    assert_eq!(items.len(), 242);
    assert_eq!(items[0], SettingsItem::Version);
    match items[1] {
        SettingsItem::AName(0, s, e) => assert_eq!(&text[s..e], "Chanel 11"),
        _ => panic!("name expected"),
    }
    assert_eq!(items[2], SettingsItem::AColor(0, 200, 155, 155, 255));
    assert_eq!(items[3], SettingsItem::AView(0, true));
    assert_eq!(items[4], SettingsItem::AView2(0, false));
    match items[5] {
        SettingsItem::AConverter(0, s, e) => assert_eq!(&text[s..e], "1.5"),
        _ => panic!("converter expected"),
    }
    match items[7] {
        SettingsItem::AReduction2(0, s, e) => assert_eq!(&text[s..e], "0.25"),
        _ => panic!("reduction expected"),
    }
    assert_eq!(items[7 * 15 + 2], SettingsItem::AColor(15, 215, 155, 155, 255));
    match items[113] {
        SettingsItem::DName(0, s, e) => assert_eq!(&text[s..e], "D0"),
        _ => panic!("name expected"),
    }
    assert_eq!(items[114], SettingsItem::DColor(0, 1, 2, 3, 4));
    assert_eq!(items[115], SettingsItem::DView(0, false));
    match items[240] {
        SettingsItem::DConverter(31, s, e) => assert_eq!(&text[s..e], "1"),
        _ => panic!("converter expected"),
    }
    assert_eq!(items[241], SettingsItem::Duration(50));
}

#[test]
fn unix_line_ends_and_missing_final_newline() {
    let text = settings_text().replace("\r\n", "\n");
    let text = text.trim_end_matches("Nop\n").trim_end_matches('\n').to_string();
    let items = read_all(&text).unwrap();
    assert_eq!(items[241], SettingsItem::Duration(50));
}

#[test]
fn version_errors() {
    assert_eq!(settings_next(b"Version:2\r\n", 0, 0), Err(SettingsError::VersionUnknown));
    assert_eq!(settings_next(b"Version:+1\r\n", 0, 0), Ok((SettingsItem::Version, 12)));
    assert_eq!(settings_next(b"Version:\r\n", 0, 0), Err(SettingsError::Int(IntError::Empty)));
    assert_eq!(settings_next(b"Version:x\r\n", 0, 0), Err(SettingsError::Int(IntError::InvalidDigit)));
    assert_eq!(settings_next(b"Version:-1", 0, 0), Err(SettingsError::Int(IntError::InvalidDigit)));
    assert_eq!(settings_next(b"Version:99999999999", 0, 0), Err(SettingsError::Int(IntError::PosOverflow)));
    assert_eq!(settings_next(b"Versio:1", 0, 0), Err(SettingsError::Parser));
    assert_eq!(settings_next(b"", 0, 0), Err(SettingsError::Parser));
    assert_eq!(settings_next(b"x Version:1", 0, 0), Ok((SettingsItem::Version, 11)));
}

#[test]
fn name_line_of_wrong_channel_is_refused() {
    assert_eq!(settings_next(b"Name1:abc\n", 0, 1), Err(SettingsError::Parser));
    assert_eq!(settings_next(b"Name0:a:b\n", 0, 1), Ok((SettingsItem::AName(0, 6, 9), 10)));
    assert_eq!(settings_next(b"Name12:x\n", 0, 1 + 7 * 16 + 4 * 12), Ok((SettingsItem::DName(12, 7, 8), 9)));
}

#[test]
fn flag_and_colour_errors() {
    assert_eq!(settings_next(b"Viewinchart:True\n", 0, 3), Err(SettingsError::Bool));
    assert_eq!(settings_next(b"Color RGBA:1:2:300:4\n", 0, 2), Err(SettingsError::Int(IntError::PosOverflow)));
    assert_eq!(settings_next(b"Color RGBA:1:2:3:4\n", 0, 2), Ok((SettingsItem::AColor(0, 1, 2, 3, 4), 19)));
    assert_eq!(settings_next(b"Color RGBA:1:2:3:4:5\n", 0, 2), Err(SettingsError::Int(IntError::InvalidDigit)));
    assert!(!settings_line_in_range(b"Color RGBA:1:2\n", 0, 2));
    assert!(!settings_line_in_range(b"Color RGBA:1:2:3\n", 0, 2));
    assert!(settings_line_in_range(b"Color RGBA:1:2:3:4\n", 0, 2));
}

#[test]
fn duration_line() {
    assert_eq!(settings_next(b"Duration:2000", 0, 241), Ok((SettingsItem::Duration(2000), 13)));
    assert_eq!(settings_next(b"Duration:", 0, 241), Err(SettingsError::Int(IntError::Empty)));
}
