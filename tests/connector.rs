use fastlink::codec::index_to_code;
use fastlink::db::{stored_payload, AddError, ConfigError, DBConnector};
use fastlink::primes::is_prime_u64;

fn connector() -> DBConnector {
    DBConnector::new(11, 2, 0, 16).unwrap()
}

/// A data file held in memory: `(prime - 1) * block_size` zero bytes.
fn blank_data(db: &DBConnector) -> Vec<u8> {
    vec![0u8; db.data_size().unwrap() as usize]
}

fn write_block(data: &mut Vec<u8>, slot: u64, block: &[u8]) {
    let start = slot as usize * block.len();
    data[start..start + block.len()].copy_from_slice(block);
}

fn read_block(data: &[u8], slot: u64, block_size: usize) -> Vec<u8> {
    let start = slot as usize * block_size;
    data[start..start + block_size].to_vec()
}

/// Stores a payload the way the server does; returns the code.
fn add(db: &mut DBConnector, data: &mut Vec<u8>, order: usize, payload: &[u8]) -> Result<String, AddError> {
    let pending = db.prepare_add(order, &payload.to_vec())?;
    write_block(data, pending.slot, &pending.block);
    db.evolve_state();
    Ok(pending.code)
}

fn get(db: &DBConnector, data: &[u8], order: usize, code: &str) -> Option<Vec<u8>> {
    let slot = db.find_slot(order, &code.to_string())?;
    stored_payload(&read_block(data, slot, db.block_size()))
}

#[test]
fn new_rejects_bad_configurations() {
    assert_eq!(DBConnector::new(11, 11, 0, 16).unwrap_err(), ConfigError::GeneratorTooBig);
    assert_eq!(DBConnector::new(11, 12, 0, 16).unwrap_err(), ConfigError::GeneratorTooBig);
    assert_eq!(DBConnector::new(11, 0, 0, 16).unwrap_err(), ConfigError::GeneratorZero);
    assert_eq!(DBConnector::new(11, 1, 0, 16).unwrap_err(), ConfigError::GeneratorOne);
    assert_eq!(DBConnector::new(11, 2, 11, 16).unwrap_err(), ConfigError::StateTooBig);
    assert_eq!(DBConnector::new(12, 5, 0, 16).unwrap_err(), ConfigError::NotPrime);
}

#[test]
fn new_seeds_state() {
    assert_eq!(connector().get_state(), 2);
    assert_eq!(DBConnector::new(11, 2, 7, 16).unwrap().get_state(), 7);
    assert_eq!(connector().prime(), 11);
    assert_eq!(connector().block_size(), 16);
}

#[test]
fn primality_by_trial_division() {
    let primes: Vec<u64> = (0u64..60).filter(|&n| is_prime_u64(n)).collect();
    assert_eq!(primes, vec![2, 3, 5, 7, 11, 13, 17, 19, 23, 29, 31, 37, 41, 43, 47, 53, 59]);
    assert!(is_prime_u64(2147483647));
    assert!(!is_prime_u64(2147483649));
    assert!(!is_prime_u64(49));
}

#[test]
fn generator_cycle_for_eleven_and_two() {
    let mut db = connector();
    let mut seen = vec![db.get_state()];
    for _ in 0..10 {
        seen.push(db.evolve_state());
    }
    assert_eq!(seen, vec![2, 4, 8, 5, 10, 9, 7, 3, 6, 1, 2]);
    assert_eq!(db.get_state(), 2);
}

#[test]
fn generator_product_exceeds_64_bits() {
    let p: u64 = 4294967311; // the least prime above 2^32
    let mut db = DBConnector::new(p, p - 1, p - 2, 1).unwrap();
    let expected = ((p as u128 - 2) * (p as u128 - 1) % p as u128) as u64;
    assert_eq!(db.evolve_state(), expected);
    assert_eq!(expected, 2);
}

#[test]
fn data_size_and_check() {
    let db = connector();
    assert_eq!(db.data_size(), Some(160));
    assert_eq!(db.check_datafile(160), Ok(()));
    assert_eq!(db.check_datafile(159), Err(ConfigError::DataSizeMismatch));
    let huge = DBConnector::new(11, 2, 0, usize::MAX / 2).unwrap();
    assert_eq!(huge.data_size(), None);
    assert_eq!(huge.check_datafile(0), Err(ConfigError::DataTooLarge));
}

#[test]
fn load_state_checks_range() {
    let mut db = connector();
    assert_eq!(db.load_state(0), Err(ConfigError::InvalidState));
    assert_eq!(db.load_state(11), Err(ConfigError::InvalidState));
    assert_eq!(db.get_state(), 2);
    assert_eq!(db.load_state(10), Ok(()));
    assert_eq!(db.get_state(), 10);
}

#[test]
fn ensure_decisions() {
    let mut db = connector();
    assert_eq!(db.ensure(0, 0, None), Err(ConfigError::PrimeTooBig));
    assert_eq!(db.ensure(2, 100, None), Err(ConfigError::DataSizeMismatch));
    assert_eq!(db.ensure(2, 0, Some(11)), Err(ConfigError::InvalidState));
    assert_eq!(db.get_state(), 2);
    assert_eq!(db.ensure(2, 0, None), Ok(true));
    assert_eq!(db.get_state(), 2);
    assert_eq!(db.ensure(2, 160, Some(9)), Ok(false));
    assert_eq!(db.get_state(), 9);
    let mut big = DBConnector::new(4099, 2, 0, 1).unwrap();
    assert_eq!(big.ensure(2, 0, None), Err(ConfigError::PrimeTooBig));
    assert_eq!(big.ensure(3, 0, None), Ok(true));
    let mut huge = DBConnector::new(11, 2, 0, usize::MAX / 2).unwrap();
    assert_eq!(huge.ensure(2, 0, None), Err(ConfigError::DataTooLarge));
}

#[test]
fn first_add_scenario() {
    let mut db = connector();
    assert_eq!(db.ensure(2, 0, None), Ok(true));
    let mut data = blank_data(&db);
    let pending = db.prepare_add(2, &b"hi".to_vec()).unwrap();
    assert_eq!(pending.slot, 1);
    assert_eq!(pending.code, index_to_code(2, 2));
    assert_eq!(pending.code, "ac");
    let mut block = b"hi".to_vec();
    block.resize(16, 0);
    assert_eq!(pending.block, block);
    write_block(&mut data, pending.slot, &pending.block);
    assert_eq!(db.evolve_state(), 4);
    assert_eq!(db.find_slot(2, &"ac".to_string()), Some(1));
    assert_eq!(get(&db, &data, 2, "ac"), Some(b"hi".to_vec()));
}

#[test]
fn add_then_get_every_length() {
    let mut db = connector();
    let mut data = blank_data(&db);
    for len in 1..=16usize {
        let payload: Vec<u8> = (0..len).map(|i| b'a' + (i % 26) as u8).collect();
        let code = add(&mut db, &mut data, 2, &payload).unwrap();
        assert_eq!(get(&db, &data, 2, &code), Some(payload));
    }
}

#[test]
fn add_uses_fresh_slots_until_the_cycle_ends() {
    let mut db = connector();
    let mut data = blank_data(&db);
    let mut codes = Vec::new();
    for k in 0..10u8 {
        let code = add(&mut db, &mut data, 2, &[b'a' + k]).unwrap();
        assert!(!codes.contains(&code));
        codes.push(code);
    }
    for (k, code) in codes.iter().enumerate() {
        assert_eq!(get(&db, &data, 2, code), Some(vec![b'a' + k as u8]));
    }
}

#[test]
fn get_rejects_bad_codes() {
    let mut db = connector();
    let mut data = blank_data(&db);
    add(&mut db, &mut data, 2, b"x").unwrap();
    assert_eq!(db.find_slot(2, &"a".to_string()), None);
    assert_eq!(db.find_slot(2, &"aac".to_string()), None);
    assert_eq!(db.find_slot(2, &"aa".to_string()), None);
    assert_eq!(db.find_slot(2, &"al".to_string()), None);
    assert_eq!(db.find_slot(2, &"a!".to_string()), None);
    assert_eq!(db.find_slot(2, &"ak".to_string()), Some(9));
    assert_eq!(get(&db, &data, 2, "ak"), None);
    assert_eq!(get(&db, &data, 2, "ac"), Some(b"x".to_vec()));
}

#[test]
fn get_rejects_codes_that_wrap() {
    let db = connector();
    assert_eq!(db.find_slot(11, &"qaaaaaaaaab".to_string()), None);
    assert_eq!(db.find_slot(11, &"aaaaaaaaaab".to_string()), Some(0));
}

#[test]
fn add_rejects_empty_payload_without_change() {
    let mut db = connector();
    assert!(matches!(db.prepare_add(2, &Vec::new()), Err(AddError::PayloadEmpty)));
    assert_eq!(db.get_state(), 2);
    let mut data = blank_data(&db);
    assert_eq!(add(&mut db, &mut data, 2, b"y").unwrap(), "ac");
}

#[test]
fn add_rejects_long_payload_without_change() {
    let mut db = connector();
    assert!(matches!(db.prepare_add(2, &vec![b'z'; 17]), Err(AddError::PayloadTooLarge)));
    assert_eq!(db.get_state(), 2);
    let mut data = blank_data(&db);
    assert_eq!(add(&mut db, &mut data, 2, &[b'z'; 16]).unwrap(), "ac");
}

#[test]
fn stored_payload_strips_padding() {
    assert_eq!(stored_payload(&vec![0u8; 16]), None);
    assert_eq!(stored_payload(&vec![0u8, 7, 0]), None);
    assert_eq!(stored_payload(&Vec::new()), None);
    assert_eq!(stored_payload(&vec![104, 0, 105, 0, 0]), Some(vec![104, 0, 105]));
    assert_eq!(stored_payload(&vec![104, 105]), Some(vec![104, 105]));
}

#[test]
fn every_generator_returns_after_full_period() {
    for &p in [13u64, 101].iter() {
        for g in 2..p {
            let mut db = DBConnector::new(p, g, 0, 1).unwrap();
            for _ in 0..p - 1 {
                db.evolve_state();
            }
            assert_eq!(db.get_state(), g);
        }
    }
}

#[test]
fn primitive_root_visits_every_residue() {
    let mut db = DBConnector::new(13, 2, 0, 1).unwrap();
    let mut seen = vec![db.get_state()];
    for _ in 0..11 {
        seen.push(db.evolve_state());
    }
    seen.sort();
    assert_eq!(seen, (1u64..13).collect::<Vec<u64>>());
}
