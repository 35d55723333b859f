use ferrum::config::ServerConfig;

#[test]
fn default_settings() {
    let c = ServerConfig::default();
    assert_eq!(c.port, 25565);
    assert_eq!(c.max_players, 20);
    assert_eq!(c.motd, "A Rust Minecraft Server");
}

#[test]
fn json_text() {
    let c = ServerConfig { port: 25566, max_players: 8, motd: "Hello".to_string() };
    assert_eq!(c.to_json(), "{\"port\":25566,\"max_players\":8,\"motd\":\"Hello\"}");
}

#[test]
fn json_round_trip() {
    let c = ServerConfig { port: 1, max_players: 65535, motd: "Salut a tous !".to_string() };
    let d = ServerConfig::from_json(&c.to_json());
    assert_eq!(d.port, 1);
    assert_eq!(d.max_players, 65535);
    assert_eq!(d.motd, "Salut a tous !");
}

#[test]
fn missing_or_bad_fields_keep_defaults() {
    let d = ServerConfig::from_json("{}");
    assert_eq!(d.port, 25565);
    assert_eq!(d.max_players, 20);
    assert_eq!(d.motd, "A Rust Minecraft Server");
    // Spaces may stand between the colon and the digits.
    let d = ServerConfig::from_json("{\"port\": 1234, \"motd\": \"x\"}");
    assert_eq!(d.port, 1234);
    assert_eq!(d.max_players, 20);
    assert_eq!(d.motd, "x");
    // A number is taken modulo 2^16; a key without digits is ignored.
    let d = ServerConfig::from_json("{\"port\":70000,\"max_players\":x}");
    assert_eq!(d.port, (70000u32 % 65536) as u16);
    assert_eq!(d.max_players, 20);
}

#[test]
fn hand_edited_config_with_spaces() {
    let c = ServerConfig::from_json("{\"port\": 25566, \"max_players\":\t5,\n \"motd\": \"Hi\"}");
    assert_eq!(c.port, 25566);
    assert_eq!(c.max_players, 5);
    assert_eq!(c.motd, "Hi");
}
