use matchmaker::game::{FakeGame, FakeGameProvider, GameProvider, QueueError};
use matchmaker::gamefinder::{
    interpret_response, GameFinder, GameFinderError, GameFinderSettings, JsonVal,
};

fn sample_body(port: JsonVal) -> JsonVal {
    JsonVal::Obj(vec![
        ("gameId".to_string(), JsonVal::Str("g-1".to_string())),
        ("host".to_string(), JsonVal::Str("play.example".to_string())),
        ("port".to_string(), port),
    ])
}

#[test]
fn test_defaults() {
    let finder = GameFinder::new();
    assert_eq!(finder.config.base_url, "http://example.com/{playlist}".to_string());
    assert_eq!(finder.config.id_path, "$.gameId".to_string());
    assert_eq!(finder.config.host_path, "$.host".to_string());
    assert_eq!(finder.config.port_path, "$.port".to_string());
}

#[test]
fn test_interpret_success() {
    let finder = GameFinder::new();
    let game = interpret_response(200, &sample_body(JsonVal::Int(2456)), &finder.config).unwrap();
    assert_eq!(game.id, "g-1".to_string());
    assert_eq!(game.server_host, "play.example".to_string());
    assert_eq!(game.server_port, 2456);
}

#[test]
fn test_interpret_non_success_status() {
    let finder = GameFinder::new();
    let err = interpret_response(404, &sample_body(JsonVal::Int(2456)), &finder.config);
    assert!(matches!(err, Err(GameFinderError::GameNotFound(404))));
}

#[test]
fn test_interpret_missing_field() {
    let finder = GameFinder::new();
    let body = JsonVal::Obj(vec![("host".to_string(), JsonVal::Str("h".to_string()))]);
    match interpret_response(204, &body, &finder.config) {
        Err(GameFinderError::InvalidField(f)) => assert_eq!(f, "gameId".to_string()),
        other => panic!("expected a missing gameId, got {:?}", other),
    }
}

#[test]
fn test_interpret_wrong_typed_host() {
    let finder = GameFinder::new();
    let body = JsonVal::Obj(vec![
        ("gameId".to_string(), JsonVal::Str("g".to_string())),
        ("host".to_string(), JsonVal::Int(7)),
        ("port".to_string(), JsonVal::Int(80)),
    ]);
    match interpret_response(200, &body, &finder.config) {
        Err(GameFinderError::InvalidField(f)) => assert_eq!(f, "host".to_string()),
        other => panic!("expected an invalid host, got {:?}", other),
    }
}

#[test]
fn test_interpret_invalid_port() {
    let finder = GameFinder::new();
    let out_of_range = interpret_response(200, &sample_body(JsonVal::Int(-1)), &finder.config);
    assert!(matches!(out_of_range, Err(GameFinderError::InvalidPort)));

    let too_big = interpret_response(200, &sample_body(JsonVal::Int(70000)), &finder.config);
    assert!(matches!(too_big, Err(GameFinderError::InvalidPort)));

    let not_a_number =
        interpret_response(200, &sample_body(JsonVal::Str("80".to_string())), &finder.config);
    assert!(matches!(not_a_number, Err(GameFinderError::InvalidPort)));
}

#[test]
fn test_interpret_malformed_selector() {
    let config = GameFinderSettings {
        base_url: "http://example.com/{playlist}".to_string(),
        id_path: "gameId".to_string(),
        host_path: "$.host".to_string(),
        port_path: "$.port".to_string(),
    };
    match interpret_response(200, &sample_body(JsonVal::Int(80)), &config) {
        Err(GameFinderError::InvalidField(f)) => assert_eq!(f, "gameId".to_string()),
        other => panic!("expected an invalid gameId, got {:?}", other),
    }
}

#[test]
fn test_with_config_replaces_atomically() {
    let custom = GameFinderSettings {
        base_url: "http://games.internal/{playlist}".to_string(),
        id_path: "$.id".to_string(),
        host_path: "$.addr".to_string(),
        port_path: "$.p".to_string(),
    };
    let finder = GameFinder::with_config(custom);
    assert_eq!(finder.config.id_path, "$.id".to_string());

    let body = JsonVal::Obj(vec![
        ("id".to_string(), JsonVal::Str("x".to_string())),
        ("addr".to_string(), JsonVal::Str("y".to_string())),
        ("p".to_string(), JsonVal::Int(1)),
    ]);
    let game = interpret_response(200, &body, &finder.config).unwrap();
    assert_eq!(game.server_port, 1);
}

#[test]
fn test_fake_game_providers() {
    let game = FakeGame.get_game_server().unwrap();
    assert_eq!(game.server_host, "localhost".to_string());
    assert_eq!(game.server_port, 25565);
    assert_eq!(game.id, "test".to_string());

    let other = FakeGameProvider.get_game_server().unwrap();
    assert_eq!(other.server_port, 25565);

    let qe = QueueError::new("boom".to_string());
    assert_eq!(qe.error, "boom".to_string());
}
