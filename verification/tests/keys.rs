use voice_prompt::credentials::{
    key_from_secrets, key_from_variable, key_of_line, resolve_gemini_api_key, secrets_path,
};

fn some(s: &str) -> Option<String> {
    Some(s.to_string())
}

#[test]
fn the_environment_comes_first() {
    let secrets = Some("$env.GEMINI_API_KEY = \"file\"");
    assert_eq!(resolve_gemini_api_key(Some(" var\n"), secrets), some("var"));
    assert_eq!(resolve_gemini_api_key(Some("  "), secrets), some("file"));
    assert_eq!(resolve_gemini_api_key(None, secrets), some("file"));
    assert_eq!(resolve_gemini_api_key(None, None), None);
    assert_eq!(resolve_gemini_api_key(Some(""), None), None);
}

#[test]
fn a_variable_is_trimmed() {
    assert_eq!(key_from_variable("\tk \u{3000}"), some("k"));
    assert_eq!(key_from_variable("\"k\""), some("\"k\""));
    assert_eq!(key_from_variable(" \n"), None);
}

#[test]
fn a_line_is_unquoted() {
    assert_eq!(key_of_line("$env.GEMINI_API_KEY = \"abc\""), some("abc"));
    assert_eq!(key_of_line("$env.GEMINI_API_KEY='abc';"), some("abc"));
    assert_eq!(key_of_line("$env.GEMINI_API_KEY=abc"), some("abc"));
    assert_eq!(key_of_line("$env.GEMINI_API_KEY = \"a=b c\" ; "), some("a=b c"));
    assert_eq!(key_of_line("$env.GEMINI_API_KEY_OLD = x"), some("x"));
    assert_eq!(key_of_line("$env.GEMINI_API_KEY = \"\""), None);
    assert_eq!(key_of_line("$env.GEMINI_API_KEY"), None);
    assert_eq!(key_of_line("# $env.GEMINI_API_KEY = x"), None);
    assert_eq!(key_of_line("GEMINI_API_KEY = x"), None);
}

#[test]
fn the_first_line_that_sets_a_key_counts() {
    let content = "# secrets\r\n\r\n  $env.GEMINI_API_KEY = ''\r\n\t$env.GEMINI_API_KEY = \"one\"\r\n$env.GEMINI_API_KEY = \"two\"\r\n";
    assert_eq!(key_from_secrets(content), some("one"));
    assert_eq!(key_from_secrets(""), None);
    assert_eq!(key_from_secrets("\n\n"), None);
    assert_eq!(key_from_secrets("$env.OTHER = \"x\"\n"), None);
}

#[test]
fn a_key_that_is_written_is_read_back() {
    for key in ["AIzaSy-x_1", "k", "a\"b", "with = sign", "gr\u{fc}n"] {
        let line = format!("$env.GEMINI_API_KEY = \"{}\"", key);
        assert_eq!(key_from_secrets(&line), some(key));
        assert_eq!(key_from_secrets(&format!("let x = 1\n{}\nlet y = 2", line)), some(key));
    }
}

#[test]
fn the_secrets_file_lies_below_app_data() {
    assert_eq!(secrets_path("C:\\Roaming"), vec!["C:\\Roaming", "nushell", "secrets.nu"]);
}

#[test]
fn appended_lines_leave_the_key() {
    let first = "# mine\n$env.GEMINI_API_KEY = 'one'";
    let second = "$env.GEMINI_API_KEY = 'two'";
    assert_eq!(key_from_secrets(&format!("{}\n{}", first, second)), some("one"));
    assert_eq!(key_from_secrets(&format!("let x = 1\n\n{}", second)), some("two"));
    assert_eq!(key_from_secrets(&format!("{}\n", first)), some("one"));
}
