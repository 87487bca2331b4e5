use aio_base_backend::text::is_blank;
use aio_base_backend::aio_workledger_types::{TraceItem, WorkLedger};
use aio_base_backend::device_types::{DeviceCapability, DeviceFilter, DeviceInfo, DeviceService, DeviceStatus, DeviceType};
use aio_base_backend::hmac::verify_webhook_sig;
use aio_base_backend::types::{advance_order_status, header, is_webhook_request, status_of_invoice, OrderStatus};

#[test]
fn webhook_signature_check() {
    // HMAC-SHA256("key", "The quick brown fox jumps over the lazy dog"), base64.
    let body = b"The quick brown fox jumps over the lazy dog";
    let sig = "97yD9DBThCSxMpjmqm+xQ+9NWaFJRhdZl0edvC0aPNg=";
    assert!(verify_webhook_sig(body, Some(sig), "key"));
    assert!(verify_webhook_sig(body, Some("97yD9DBThCSxMpjmqm+xQ+9NWaFJRhdZl0edvC0aPNg"), "key"));
    assert!(!verify_webhook_sig(body, Some(sig), "other"));
    assert!(!verify_webhook_sig(body, None, "key"));
    assert!(!verify_webhook_sig(b"tampered", Some(sig), "key"));
}

#[test]
fn webhook_routing_and_statuses() {
    assert!(is_webhook_request("post", "https://x/bitpay/webhook"));
    assert!(!is_webhook_request("GET", "https://x/bitpay/webhook"));
    assert!(!is_webhook_request("POST", "https://x/bitpay/other"));
    let hs = vec![("Content-Type".to_string(), "json".to_string()), ("X-Signature".to_string(), "s".to_string())];
    assert_eq!(header(&hs, "x-signature"), Some("s".to_string()));
    assert_eq!(header(&hs, "missing"), None);
    assert_eq!(status_of_invoice("paid"), OrderStatus::Paid);
    assert_eq!(status_of_invoice("weird"), OrderStatus::New);
    assert_eq!(advance_order_status(OrderStatus::Paid, OrderStatus::Confirmed), (OrderStatus::Delivered, true));
    assert_eq!(advance_order_status(OrderStatus::Delivered, OrderStatus::Complete), (OrderStatus::Delivered, false));
    assert_eq!(advance_order_status(OrderStatus::Delivered, OrderStatus::Expired), (OrderStatus::Expired, false));
}

fn device(id: &str, owner: &str) -> DeviceInfo {
    DeviceInfo {
        id: id.to_string(),
        name: "n".to_string(),
        device_type: DeviceType::IoT,
        owner: owner.to_string(),
        status: DeviceStatus::Offline,
        capabilities: vec![DeviceCapability::Audio, DeviceCapability::Custom("lamp".to_string())],
        metadata: vec![],
        created_at: 1,
        updated_at: 1,
        last_seen: 1,
    }
}

#[test]
fn devices_are_filed_and_searched() {
    let mut svc = DeviceService::new();
    assert_eq!(svc.add_device(device("d2", "o1")), Ok(0));
    assert_eq!(svc.add_device(device("d1", "o1")), Ok(1));
    assert_eq!(svc.add_device(device("d1", "o2")).unwrap_err(), "Device ID already exists");
    let mine = svc.get_devices_by_owner(&"o1".to_string());
    assert_eq!(mine.iter().map(|d| d.id.clone()).collect::<Vec<_>>(), vec!["d1", "d2"]);
    svc.update_last_seen("d1", 50).unwrap();
    assert_eq!(svc.get_device_by_id("d1").unwrap().status, DeviceStatus::Online);
    assert_eq!(svc.get_device_by_id("d1").unwrap().last_seen, 50);
    let filter = DeviceFilter {
        owner: None,
        device_type: None,
        status: Some(DeviceStatus::Online),
        capability: Some(DeviceCapability::Custom("lamp".to_string())),
    };
    assert_eq!(svc.search_devices(filter).len(), 1);
    assert_eq!(svc.update_device("d1", device("other", "o1")).unwrap_err(), "Device ID mismatch");
    svc.delete_device("d1").unwrap();
    assert!(svc.get_device_by_id("d1").is_none());
    assert_eq!(svc.delete_device("d1").unwrap_err(), "Device not found");
    let page = svc.get_all_devices(1, 5);
    assert_eq!(page.total, 2);
    assert_eq!(page.devices.len(), 1);
}

fn work(id: &str) -> TraceItem {
    TraceItem {
        context_id: "c".to_string(),
        trace_id: id.to_string(),
        owner: "o".to_string(),
        created_at: 1,
        updated_at: 1,
        calls: vec![],
        metadata: None,
    }
}

#[test]
fn work_ledger_ids_and_owner_lookup() {
    let mut ledger = WorkLedger::new();
    assert_eq!(ledger.add_trace(work("")).unwrap_err(), "Trace ID must be provided");
    assert_eq!(ledger.add_trace(work("t1")), Ok(0));
    assert_eq!(ledger.add_trace(work("t1")).unwrap_err(), "Trace with ID 't1' already exists");
    assert_eq!(ledger.get_trace_by_id("t1".to_string()).unwrap().trace_id, "t1");
    assert!(ledger.get_user_traces("o".to_string()).is_empty());
    assert_eq!(ledger.get_traces_paginated(0, 10).len(), 1);
}

#[test]
fn blank_text_follows_unicode_white_space() {
    assert!(is_blank(""));
    assert!(is_blank(" \t\n\r\u{0B}\u{0C}\u{85}\u{A0}\u{1680}\u{2000}\u{200A}\u{2028}\u{2029}\u{202F}\u{205F}\u{3000}"));
    assert!(!is_blank("\u{200B}"));
    assert!(!is_blank(" a "));
    for c in ['\u{8}', '\u{E}', '\u{1F}', '\u{200B}', '\u{FEFF}', 'x'] {
        assert_eq!(is_blank(&c.to_string()), c.is_whitespace());
    }
}

#[test]
fn webhook_bodies_give_their_invoice_id() {
    let id = aio_base_backend::json_value::webhook_invoice_id;
    assert_eq!(id(r#"{"event":{"name":"invoice_paidInFull"},"data":{"id":"Inv123","status":"paid"}}"#), Ok("Inv123".to_string()));
    assert_eq!(id(r#"{"data":{"status":"paid"}}"#), Ok(String::new()));
    assert_eq!(id(r#"{"data":{"id":42}}"#), Ok(String::new()));
    assert_eq!(id(r#"[1,2]"#), Ok(String::new()));
    assert!(id("{not json").is_err());
}
