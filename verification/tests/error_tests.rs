use ipcow::error::ErrorRegistry;

#[test]
fn register_returns_sequential_ids() {
    let mut reg = ErrorRegistry::new();
    assert_eq!(reg.register_error("bind failed"), "ERR_0");
    assert_eq!(reg.register_error("accept failed"), "ERR_1");
    assert_eq!(reg.register_error("bind failed"), "ERR_2");
}

#[test]
fn lookup_after_register_gives_the_message() {
    let mut reg = ErrorRegistry::new();
    let id = reg.register_error("connection reset");
    assert_eq!(reg.get_errors(&id), Some(&vec!["connection reset".to_string()]));
}

#[test]
fn register_keeps_earlier_entries() {
    let mut reg = ErrorRegistry::new();
    let a = reg.register_error("first");
    let b = reg.register_error("second");
    assert_eq!(reg.get_errors(&a), Some(&vec!["first".to_string()]));
    assert_eq!(reg.get_errors(&b), Some(&vec!["second".to_string()]));
    assert_ne!(a, b);
}

#[test]
fn unknown_ids_are_not_found() {
    let mut reg = ErrorRegistry::new();
    assert_eq!(reg.get_errors("ERR_0"), None);
    for k in 0..12 {
        reg.register_error(&format!("error {}", k));
    }
    assert_eq!(reg.get_errors("ERR_11"), Some(&vec!["error 11".to_string()]));
    assert_eq!(reg.get_errors("ERR_12"), None);
    assert_eq!(reg.get_errors("ERR_01"), None);
    assert_eq!(reg.get_errors("ERR_"), None);
    assert_eq!(reg.get_errors("err_1"), None);
    assert_eq!(reg.get_errors("ERR_+1"), None);
    assert_eq!(reg.get_errors("ERR_1 "), None);
    assert_eq!(reg.get_errors("ERR_99999999999999999999999"), None);
}
