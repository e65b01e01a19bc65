use rustclaw::cli::{current_token, kept_token, replace_token, show_session};
use rustclaw::session::SessionMeta;

#[test]
fn the_stored_token_is_read() {
    assert_eq!(current_token(""), None);
    assert_eq!(current_token("export OTHER=1\n"), None);
    assert_eq!(
        current_token("export A=1\n  export RUSTCLAW_TOKEN=\"abc\"\n"),
        Some("abc".to_string())
    );
    assert_eq!(current_token("export RUSTCLAW_TOKEN=plain"), Some("plain".to_string()));
}

#[test]
fn a_new_token_takes_the_place_of_the_old_one() {
    assert_eq!(replace_token("", "t"), "export RUSTCLAW_TOKEN=\"t\"\n");
    assert_eq!(
        replace_token("export A=1\nexport RUSTCLAW_TOKEN=\"old\"\nexport B=2\n", "new"),
        "export A=1\nexport B=2\nexport RUSTCLAW_TOKEN=\"new\"\n"
    );
    assert_eq!(replace_token("A\r\n\n", "t"), "A\nexport RUSTCLAW_TOKEN=\"t\"\n");
}

#[test]
fn a_written_token_is_read_back() {
    for before in ["", "export A=1", "export RUSTCLAW_TOKEN=\"x\"\n\n\n", "a\r\r\nb\n"] {
        let file = replace_token(before, "fresh");
        assert_eq!(current_token(&file), Some("fresh".to_string()), "{before:?}");
    }
}

#[test]
fn a_token_is_kept_unless_it_is_to_be_replaced() {
    let file = "export RUSTCLAW_TOKEN=\"abc\"\n";
    assert_eq!(kept_token(file, false), Some("abc".to_string()));
    assert_eq!(kept_token(file, true), None);
    assert_eq!(kept_token("", false), None);
}

#[test]
fn a_conversation_is_listed_in_columns() {
    let m = SessionMeta { id: "s17".into(), title: "Notas".into(), updated_at: 1, messages: 4 };
    assert_eq!(show_session(&m), "s17              4 msg  Notas");
}
