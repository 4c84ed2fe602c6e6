use kapitoshka::settings::Settings;

#[test]
fn default_has_no_model() {
    let s = Settings::default();
    assert!(s.model.is_none());
}

#[test]
fn set_model_updates_field() {
    let mut s = Settings {
        model: Some("old".to_string()),
    };
    s.set_model("new-model");
    assert_eq!(s.model.as_deref(), Some("new-model"));
}
