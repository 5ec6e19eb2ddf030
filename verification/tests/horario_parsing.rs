use quickshift::horario::{hora_a_minutos, parse_slots, parse_slots_text, slot_text_exec, to_min_upper};
use quickshift::scoring::{extract_days_from_horario, parse_horario_range};

#[test]
fn hora_a_minutos_reads_hours_and_minutes() {
    assert_eq!(hora_a_minutos("08:30"), Some(510));
    assert_eq!(hora_a_minutos(" 8:05 "), Some(485));
    assert_eq!(hora_a_minutos("8: 05"), None);
    assert_eq!(hora_a_minutos("0830"), None);
    assert_eq!(hora_a_minutos("xx:10"), None);
}

#[test]
fn parse_slots_expands_days() {
    assert_eq!(
        parse_slots("LU MA 08:30-10:00"),
        vec![("LU".to_string(), 510, 600), ("MA".to_string(), 510, 600)]
    );
}

#[test]
fn parse_slots_compact_and_long_day_names() {
    assert_eq!(parse_slots("LU:08:30-10:00"), vec![("LU".to_string(), 510, 600)]);
    assert_eq!(parse_slots("LUN 08:00-09:00"), vec![("LU".to_string(), 480, 540)]);
    assert_eq!(parse_slots("mie 08.00-09.00"), vec![("MI".to_string(), 480, 540)]);
}

#[test]
fn parse_slots_without_range_is_empty() {
    assert!(parse_slots("sin horario").is_empty());
    assert!(parse_slots("").is_empty());
}

#[test]
fn parse_slots_unreadable_end_is_one_hour_after_start() {
    assert_eq!(parse_slots("LU 08:30-xx"), vec![("LU".to_string(), 510, 570)]);
}

#[test]
fn parse_horario_range_examples() {
    assert_eq!(parse_horario_range("LU MI 08:30 - 10:00"), Some((510, 600)));
    assert_eq!(parse_horario_range("08:30-10:00"), Some((510, 600)));
    assert_eq!(parse_horario_range("VI 14:00\u{2013}15:30"), Some((840, 930)));
    assert_eq!(parse_horario_range("LU 08:30"), None);
    assert_eq!(parse_horario_range("sin horario"), None);
}

#[test]
fn extract_days_keeps_weekday_codes() {
    assert_eq!(
        extract_days_from_horario("lu MA x 08:30 - 10:00"),
        vec!["LU".to_string(), "MA".to_string()]
    );
    assert!(extract_days_from_horario("SA 08:00-09:00").is_empty());
}

#[test]
fn parse_slots_takes_only_letters_as_a_compact_day() {
    assert!(parse_slots("08:30-10:00").is_empty());
    assert_eq!(parse_slots("MIE:08:00-09:00"), vec![("MIE".to_string(), 480, 540)]);
}

#[test]
fn prepared_text_parses_without_upper_casing() {
    let text: Vec<char> = "LU MA 08:30-10:00".chars().collect();
    let r = parse_slots_text(&text);
    assert_eq!(r, vec![("LU".to_string(), 510, 600), ("MA".to_string(), 510, 600)]);
    let prepared = slot_text_exec(&" lu 08.30-10.00 ".chars().collect());
    assert_eq!(prepared.iter().collect::<String>(), "LU 08:30-10:00");
    assert_eq!(parse_slots_text(&prepared), vec![("LU".to_string(), 510, 600)]);
    assert_eq!(to_min_upper(&"8.30PM".chars().collect()), Some(510));
}

#[test]
fn hora_a_minutos_padded_unpadded_and_colons() {
    for h in [0u32, 7, 8, 23] {
        for m in [0u32, 5, 30, 59] {
            let want = Some((h * 60 + m) as i32);
            assert_eq!(hora_a_minutos(&format!("{:02}:{:02}", h, m)), want);
            assert_eq!(hora_a_minutos(&format!(" {}:{} ", h, m)), want);
        }
    }
    assert_eq!(hora_a_minutos("0830"), None);
    assert_eq!(hora_a_minutos("08:30:00"), None);
}
