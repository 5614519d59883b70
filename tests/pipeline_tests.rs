use serde_json::Value;
use touban::{decode_bytes, encode_bytes, split_members_arg, Ledger, LedgerError, Member};

fn to_json(l: &Ledger) -> Vec<u8> {
    let members: Vec<Value> = l
        .members
        .iter()
        .map(|m| {
            let mut o = serde_json::Map::new();
            o.insert("name".to_string(), Value::from(m.name.clone()));
            o.insert("count".to_string(), Value::from(m.count));
            Value::Object(o)
        })
        .collect();
    let mut o = serde_json::Map::new();
    o.insert("people".to_string(), Value::from(l.people as u64));
    o.insert("interval".to_string(), Value::from(l.interval as u64));
    o.insert("members".to_string(), Value::Array(members));
    serde_json::to_vec(&Value::Object(o)).unwrap()
}

fn from_json(bytes: &[u8]) -> Result<Ledger, LedgerError> {
    let bad = LedgerError::MalformedLedgerSchema;
    let v: Value = serde_json::from_slice(bytes).map_err(|_| bad)?;
    let people = v.get("people").and_then(Value::as_u64).ok_or(bad)? as usize;
    let interval = v.get("interval").and_then(Value::as_u64).ok_or(bad)? as usize;
    let mut members = Vec::new();
    for m in v.get("members").and_then(Value::as_array).ok_or(bad)? {
        let name = m.get("name").and_then(Value::as_str).ok_or(bad)?.to_string();
        let count = m.get("count").and_then(Value::as_u64).ok_or(bad)?;
        members.push(Member { name, count: u8::try_from(count).map_err(|_| bad)? });
    }
    Ledger::from_parts(people, interval, members)
}

fn show(token: &str) -> Result<Ledger, LedgerError> {
    from_json(&decode_bytes(token)?)
}

#[test]
fn created_token_shows_people_two_interval_seven() {
    let l = Ledger::create(2, 7, split_members_arg("A,B,C")).unwrap();
    let token = encode_bytes(&to_json(&l));
    assert!(token.chars().all(|c| ('\u{3041}'..='\u{3080}').contains(&c)));
    let back = show(&token).unwrap();
    assert_eq!(back.people, 2);
    assert_eq!(back.interval, 7);
    let names: Vec<&str> = back.members.iter().map(|m| m.name.as_str()).collect();
    assert_eq!(names, vec!["A", "B", "C"]);
    assert!(back.members.iter().all(|m| m.count == 0));
}

#[test]
fn ledger_token_round_trip_keeps_order_and_counts() {
    let members = vec![
        Member { name: "はなこ".to_string(), count: 5 },
        Member { name: "たろう".to_string(), count: 0 },
        Member { name: "A \"q\"".to_string(), count: 3 },
    ];
    let l = Ledger::from_parts(3, 14, members).unwrap();
    let back = show(&encode_bytes(&to_json(&l))).unwrap();
    assert_eq!(back.people, 3);
    assert_eq!(back.interval, 14);
    let pairs: Vec<(String, u8)> = back.members.iter().map(|m| (m.name.clone(), m.count)).collect();
    assert_eq!(
        pairs,
        vec![("はなこ".to_string(), 5), ("たろう".to_string(), 0), ("A \"q\"".to_string(), 3)]
    );
}

#[test]
fn failed_add_leaves_token_unchanged() {
    let l = Ledger::create(1, 7, split_members_arg("A,B")).unwrap();
    let token = encode_bytes(&to_json(&l));
    let mut m = show(&token).unwrap();
    assert_eq!(m.add_member("A".to_string()), Err(LedgerError::DuplicateMember));
    assert_eq!(encode_bytes(&to_json(&m)), token);
}

#[test]
fn token_of_bad_payload_is_malformed() {
    let token = encode_bytes(&b"{\"people\":0,\"interval\":1,\"members\":[]}".to_vec());
    assert_eq!(show(&token).unwrap_err(), LedgerError::MalformedLedgerSchema);
    let token = encode_bytes(&b"not json".to_vec());
    assert_eq!(show(&token).unwrap_err(), LedgerError::MalformedLedgerSchema);
}

#[test]
fn seeds_vary_the_draw() {
    let mut firsts = Vec::new();
    for seed in 0..20u64 {
        let mut l = Ledger::create(1, 7, split_members_arg("A,B,C,D,E")).unwrap();
        firsts.push(l.assign(Some(seed)).unwrap().chosen[0]);
    }
    firsts.sort();
    firsts.dedup();
    assert!(firsts.len() > 1);
}

#[test]
fn unseeded_draws_vary() {
    let mut firsts = Vec::new();
    for _ in 0..30 {
        let mut l = Ledger::create(1, 7, split_members_arg("A,B,C,D,E")).unwrap();
        firsts.push(l.assign(None).unwrap().chosen[0]);
    }
    firsts.sort();
    firsts.dedup();
    assert!(firsts.len() > 1);
}
