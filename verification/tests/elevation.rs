use extension_scanner::elevation::{elevation_outcome, quote_windows_arguments, wide};

fn line(args: &[&str]) -> String {
    quote_windows_arguments(&args.iter().map(|a| a.to_string()).collect::<Vec<String>>())
}

#[test]
fn arguments_are_quoted() {
    assert_eq!(line(&[]), "");
    assert_eq!(line(&["a"]), "a");
    assert_eq!(line(&["a", "b c", "d"]), "a \"b c\" d");
    assert_eq!(line(&["say \"hi\"", "t\tab"]), "\"say \\\"hi\\\"\" \"t\tab\"");
    assert_eq!(line(&["", ""]), " ");
}

#[test]
fn wide_texts_agree_with_std() {
    for s in ["", "runas", "äö€", "\u{ffff}\u{10000}\u{10ffff}", "a😀b"] {
        let mut expected: Vec<u16> = s.encode_utf16().collect();
        expected.push(0);
        assert_eq!(wide(s), expected);
    }
}

#[test]
fn answers_above_32_end_the_program() {
    assert_eq!(elevation_outcome(33), Ok(false));
    assert_eq!(elevation_outcome(i64::MAX), Ok(false));
}

#[test]
fn other_answers_are_failures() {
    assert_eq!(
        elevation_outcome(32),
        Err("Windows UAC elevation failed. Return code: 32".to_string())
    );
    assert_eq!(
        elevation_outcome(0),
        Err("Windows UAC elevation failed. Return code: 0".to_string())
    );
    assert_eq!(
        elevation_outcome(-5),
        Err("Windows UAC elevation failed. Return code: -5".to_string())
    );
    assert_eq!(
        elevation_outcome(i64::MIN),
        Err("Windows UAC elevation failed. Return code: -9223372036854775808".to_string())
    );
}
