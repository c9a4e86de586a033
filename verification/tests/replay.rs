use codetracer_ton_recorder::replay::{
    parse_boc, replay_transaction, ContractState, LiteserverClient, ReplayConfig, TransactionInfo,
};

// -- ReplayConfig tests --------------------------------------------------

#[test]
fn test_replay_config_construction() {
    let config = ReplayConfig {
        tx_hash: "abc123".to_string(),
        address: "EQD...".to_string(),
        endpoint: "https://ton.org/global-config.json".to_string(),
        source_dir: None,
    };
    assert_eq!(config.tx_hash, "abc123");
    assert_eq!(config.address, "EQD...");
    assert_eq!(config.endpoint, "https://ton.org/global-config.json");
    assert!(config.source_dir.is_none());
}

#[test]
fn test_replay_config_with_source_dir() {
    let config = ReplayConfig {
        tx_hash: "def456".to_string(),
        address: "EQA...".to_string(),
        endpoint: "http://localhost:4443".to_string(),
        source_dir: Some("/tmp/contract-src".to_string()),
    };
    assert_eq!(config.source_dir, Some("/tmp/contract-src".to_string()));
}

// -- ContractState tests -------------------------------------------------

#[test]
fn test_contract_state_creation() {
    let state = ContractState {
        code: vec![0xb5, 0xee, 0x9c, 0x72, 0x01],
        data: vec![0xb5, 0xee, 0x9c, 0x72, 0x02],
        balance: 1_000_000_000, // 1 TON
    };
    assert_eq!(state.code.len(), 5);
    assert_eq!(state.data.len(), 5);
    assert_eq!(state.balance, 1_000_000_000);
}

#[test]
fn test_contract_state_empty() {
    let state = ContractState {
        code: vec![],
        data: vec![],
        balance: 0,
    };
    assert!(state.code.is_empty());
    assert!(state.data.is_empty());
    assert_eq!(state.balance, 0);
}

// -- TransactionInfo tests -----------------------------------------------

#[test]
fn test_transaction_info_creation() {
    let tx = TransactionInfo {
        in_msg_body: vec![0x00, 0x01, 0x02],
        contract_state: ContractState {
            code: vec![0xff],
            data: vec![0xaa],
            balance: 500_000_000,
        },
    };
    assert_eq!(tx.in_msg_body, vec![0x00, 0x01, 0x02]);
    assert_eq!(tx.contract_state.balance, 500_000_000);
}

// -- LiteserverClient tests ----------------------------------------------

#[test]
fn test_liteserver_client_creation() {
    let client = LiteserverClient::new("https://example.com/config.json");
    assert_eq!(client.endpoint, "https://example.com/config.json");
}

#[test]
fn test_liteserver_fetch_returns_not_implemented() {
    let client = LiteserverClient::new("https://example.com");
    let result = client.fetch_contract_state("EQD...");
    assert!(result.is_err());
    let err_msg = result.unwrap_err().message();
    assert!(err_msg.contains("not yet implemented"));
}

#[test]
fn test_liteserver_fetch_transaction_returns_not_implemented() {
    let client = LiteserverClient::new("https://example.com");
    let result = client.fetch_transaction("abc123", "EQD...");
    assert!(result.is_err());
    let err_msg = result.unwrap_err().message();
    assert!(err_msg.contains("not yet implemented"));
}

// -- BOC parsing tests ---------------------------------------------------

#[test]
fn test_parse_boc_valid() {
    let boc = vec![0xb5, 0xee, 0x9c, 0x72, 0x01, 0x02, 0x03];
    let payload = parse_boc(&boc).unwrap();
    assert_eq!(payload, vec![0x01, 0x02, 0x03]);
}

#[test]
fn test_parse_boc_invalid_magic() {
    let boc = vec![0x00, 0x00, 0x00, 0x00, 0x01];
    let result = parse_boc(&boc);
    assert!(result.is_err());
    let err_msg = result.unwrap_err().message();
    assert!(err_msg.contains("invalid BOC magic"));
}

#[test]
fn test_parse_boc_too_short() {
    let boc = vec![0xb5, 0xee];
    let result = parse_boc(&boc);
    assert!(result.is_err());
    let err_msg = result.unwrap_err().message();
    assert!(err_msg.contains("too short"));
}

#[test]
fn test_parse_boc_empty_payload() {
    let boc = vec![0xb5, 0xee, 0x9c, 0x72];
    let payload = parse_boc(&boc).unwrap();
    assert!(payload.is_empty());
}

// -- Replay transaction test (mock) --------------------------------------

#[test]
fn test_replay_transaction_fails_without_liteserver() {
    let config = ReplayConfig {
        tx_hash: "deadbeef".to_string(),
        address: "EQDtest".to_string(),
        endpoint: "https://not-a-real-endpoint.example.com".to_string(),
        source_dir: None,
    };
    let result = replay_transaction(&config);
    // Should fail because Liteserver is not implemented yet.
    assert!(result.is_err());
}
