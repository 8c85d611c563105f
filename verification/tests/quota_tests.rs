use pear_bot::quota::{check_usr_limit, decide_quota, request_key, QuotaDecision, Store, MAX_REQUESTS};

fn grant(record: &str, remaining: usize) -> Option<QuotaDecision> {
    Some(QuotaDecision::Grant { record: record.to_string(), remaining })
}

#[test]
fn key_of_user_and_day() {
    assert_eq!(request_key(1203281930788012084, "17/03/2025"), "1203281930788012084-17/03/2025");
}

#[test]
fn first_request_of_the_day() {
    assert_eq!(MAX_REQUESTS, 5);
    assert_eq!(decide_quota(None), grant("1", 4));
}

#[test]
fn requests_count_down_to_denial() {
    let mut stored: Option<String> = None;
    let mut seen = Vec::new();
    loop {
        match decide_quota(stored.as_deref()) {
            Some(QuotaDecision::Grant { record, remaining }) => {
                seen.push(remaining);
                stored = Some(record);
            }
            Some(QuotaDecision::Deny) => break,
            None => panic!("stored value should be a count"),
        }
    }
    assert_eq!(seen, vec![4, 3, 2, 1, 0]);
    assert_eq!(stored.as_deref(), Some("5"));
    assert_eq!(decide_quota(Some("5")), Some(QuotaDecision::Deny));
    assert_eq!(decide_quota(Some("17")), Some(QuotaDecision::Deny));
}

#[test]
fn stored_value_forms() {
    assert_eq!(decide_quota(Some("+3")), grant("4", 1));
    assert_eq!(decide_quota(Some("0")), grant("1", 4));
    assert_eq!(decide_quota(Some("abc")), None);
    assert_eq!(decide_quota(Some("")), None);
    assert_eq!(decide_quota(Some("-1")), None);
}

fn store_of(entries: &[(&str, &str)]) -> Store {
    let mut store = Store::new();
    for (k, v) in entries {
        store.insert(k.to_string(), v.to_string());
    }
    store
}

fn entries_of(store: &Store) -> Vec<(String, String)> {
    store.entries()
}

fn owned(entries: &[(&str, &str)]) -> Vec<(String, String)> {
    entries.iter().map(|(k, v)| (k.to_string(), v.to_string())).collect()
}

#[test]
fn store_insert_keeps_place_of_existing_key() {
    let mut store = store_of(&[("a", "1"), ("b", "2")]);
    store.insert("a".to_string(), "9".to_string());
    store.insert("c".to_string(), "3".to_string());
    assert_eq!(entries_of(&store), owned(&[("a", "9"), ("b", "2"), ("c", "3")]));
    assert_eq!(store.get("b"), Some("2".to_string()));
    assert_eq!(store.get("z"), None);
}

#[test]
fn expiry_against_a_bare_date_drops_every_dashed_key() {
    let mut store = store_of(&[("1-01/02/2025", "2"), ("2-03/02/2025", "1"), ("nodash", "x")]);
    store.remove_expired_keys("01/02/2025");
    assert_eq!(entries_of(&store), owned(&[("nodash", "x")]));
}

#[test]
fn expiry_against_a_key_keeps_the_same_day() {
    let mut store = store_of(&[
        ("1-01/02/2025", "1"),
        ("2-03/02/2025", "1"),
        ("nodash", "1"),
        ("3-01/02/2025\nextra", "1"),
        ("4-a-01/02/2025", "1"),
    ]);
    store.remove_expired_keys("9-01/02/2025");
    assert_eq!(entries_of(&store), owned(&[("1-01/02/2025", "1"), ("3-01/02/2025\nextra", "1")]));
}

#[test]
fn expiring_twice_is_expiring_once() {
    let mut store = store_of(&[("1-01/02/2025", "1"), ("2-03/02/2025", "1"), ("nodash", "1")]);
    store.remove_expired_keys("9-01/02/2025");
    let once = entries_of(&store);
    store.remove_expired_keys("9-01/02/2025");
    assert_eq!(entries_of(&store), once);
}

#[test]
fn granted_request_saves_the_store_as_read() {
    // an old day's entry comes back with the new count
    let mut store = store_of(&[("7-01/01/2025", "3"), ("5-02/01/2025", "2")]);
    let left = check_usr_limit(&mut store, 5, "02/01/2025");
    assert_eq!(left, Some(2));
    assert_eq!(entries_of(&store), owned(&[("7-01/01/2025", "3"), ("5-02/01/2025", "3")]));
}

#[test]
fn first_request_appends_a_count() {
    let mut store = Store::new();
    assert_eq!(check_usr_limit(&mut store, 5, "02/01/2025"), Some(4));
    assert_eq!(entries_of(&store), owned(&[("5-02/01/2025", "1")]));
}

#[test]
fn denied_request_drops_the_dated_entries_and_the_day_restarts() {
    let mut store = store_of(&[("7-01/01/2025", "3"), ("5-02/01/2025", "5"), ("plain", "x")]);
    assert_eq!(check_usr_limit(&mut store, 5, "02/01/2025"), Some(0));
    assert_eq!(entries_of(&store), owned(&[("plain", "x")]));
    assert_eq!(check_usr_limit(&mut store, 5, "02/01/2025"), Some(4));
}

#[test]
fn stored_value_that_is_not_a_count() {
    let mut store = store_of(&[("5-02/01/2025", "abc"), ("1-01/01/2025", "1")]);
    assert_eq!(check_usr_limit(&mut store, 5, "02/01/2025"), None);
    assert_eq!(entries_of(&store), Vec::<(String, String)>::new());
}
