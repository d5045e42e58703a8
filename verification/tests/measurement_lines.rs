use onebrc::lines::get_measurement_lines;

#[test]
fn only_full_lines() {
    let input = r#"Eslohe;6.6
Anta;-98.3
Okegawa;-45.1
General Pinedo;-67.7
Cavarzere;5.0
Pongoz;38.9
Douglasville;43.5
Vinjam;-51.1
Singalāndāpuram;72.1
Erandio;74.8
"#;
    let input = input.as_bytes();

    let expected_full_lines = r#"Eslohe;6.6
Anta;-98.3
Okegawa;-45.1
General Pinedo;-67.7
Cavarzere;5.0
Pongoz;38.9
Douglasville;43.5
Vinjam;-51.1
Singalāndāpuram;72.1
Erandio;74.8
"#;
    let expected_full_lines = expected_full_lines.as_bytes();
    let expected_partial_lines: &[u8] = &[];

    let (actual_full_lines, actual_partial_lines) = get_measurement_lines(input);
    assert_eq!(
        expected_full_lines, actual_full_lines,
        "Full lines: expected != actual"
    );
    assert_eq!(
        expected_partial_lines, actual_partial_lines,
        "Partial lines: expected != actual"
    );
}

#[test]
fn only_partial_line() {
    let input = r#"Eslohe;"#;
    let input = input.as_bytes();

    let expected_full_lines: &[u8] = &[];
    let expected_partial_lines = b"Eslohe;";

    let (actual_full_lines, actual_partial_lines) = get_measurement_lines(input);
    assert_eq!(
        expected_full_lines, actual_full_lines,
        "Full lines: expected != actual"
    );
    assert_eq!(
        expected_partial_lines, actual_partial_lines,
        "Partial lines: expected != actual"
    );
}

#[test]
fn full_and_partial_lines() {
    let input = r#"Eslohe;6.6
Anta;-98.3
Okegawa;-45.1
General Pinedo;-67.7
Cavarzere;5.0
Pongoz;38.9
Douglasville;43.5
Vinjam;-51.1
Singalāndāpuram;"#;
    let input = input.as_bytes();

    let expected_full_lines = r#"Eslohe;6.6
Anta;-98.3
Okegawa;-45.1
General Pinedo;-67.7
Cavarzere;5.0
Pongoz;38.9
Douglasville;43.5
Vinjam;-51.1
"#;
    let expected_full_lines = expected_full_lines.as_bytes();

    let expected_partial_lines = r#"Singalāndāpuram;"#;
    let expected_partial_lines = expected_partial_lines.as_bytes();

    let (actual_full_lines, actual_partial_lines) = get_measurement_lines(input);
    assert_eq!(
        expected_full_lines, actual_full_lines,
        "Full lines: expected != actual"
    );
    assert_eq!(
        expected_partial_lines, actual_partial_lines,
        "Partial lines: expected != actual"
    );
}
