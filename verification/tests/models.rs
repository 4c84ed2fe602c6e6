use kapitoshka::models::{model_ids, models_url, Json};

fn obj(fields: Vec<(&str, Json)>) -> Json {
    Json::Object(fields.into_iter().map(|(k, v)| (k.to_string(), v)).collect())
}

fn s(x: &str) -> Json {
    Json::Str(x.to_string())
}

#[test]
fn ids_of_listed_models() {
    let body = obj(vec![
        ("object", s("list")),
        (
            "data",
            Json::Array(vec![
                obj(vec![("id", s("qwen3-4b")), ("object", s("model"))]),
                obj(vec![("id", Json::Number("7".to_string()))]),
                s("stray"),
                obj(vec![("object", s("model")), ("id", s("llama"))]),
            ]),
        ),
    ]);
    assert_eq!(model_ids(&body), vec!["qwen3-4b", "llama"]);
}

#[test]
fn no_data_array_means_no_models() {
    assert!(model_ids(&obj(vec![("data", s("oops"))])).is_empty());
    assert!(model_ids(&Json::Null).is_empty());
    assert!(model_ids(&Json::Array(vec![])).is_empty());
}

#[test]
fn models_url_drops_trailing_slashes() {
    assert_eq!(models_url("http://localhost:8000/v1"), "http://localhost:8000/v1/models");
    assert_eq!(models_url("http://h/v1//"), "http://h/v1/models");
    assert_eq!(models_url(""), "/models");
}
