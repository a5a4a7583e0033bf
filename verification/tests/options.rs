use chisel::crypto::SecretBytes;
use chisel::opening::check_before_open;
use chisel::{Argon2Params, Chisel, ChiselError, DrainInsertion, Key, Options};

#[test]
fn encryption_options_default_none_and_set() {
    let o = Options::default();
    assert!(o.encryption_key.is_none());
    assert!(o.argon2_params.is_none());

    let raw = Key::Raw(SecretBytes::new(vec![0u8; 32]));
    let o = Options::default().encryption_key(raw).argon2_params(Argon2Params { m_cost: 19456, t_cost: 2, p_cost: 1 });
    assert!(matches!(o.encryption_key, Some(Key::Raw(_))));
    let p = o.argon2_params.expect("set above");
    assert_eq!((p.m_cost, p.t_cost, p.p_cost), (19456, 2, 1));
}

#[test]
fn defaults_are_a_plain_database_with_two_slots() {
    let o = Options::default();
    assert_eq!(o.cache_max_bytes, 8 * 1024 * 1024);
    assert_eq!(o.spillway_max_bytes, 8 * 1024 * 1024 * 1024);
    assert_eq!(o.drain_insertion, DrainInsertion::LruTail);
    assert!(o.create_if_missing);
    assert!(!o.read_only);
    assert_eq!(o.superblock_count, 2);
}

#[test]
fn setters_change_their_own_field() {
    let o = Options::default()
        .cache_max_bytes(1)
        .spillway_max_bytes(2)
        .drain_insertion(DrainInsertion::Mru)
        .create_if_missing(false)
        .read_only(true)
        .superblock_count(5);
    assert_eq!(o.cache_max_bytes, 1);
    assert_eq!(o.spillway_max_bytes, 2);
    assert_eq!(o.drain_insertion, DrainInsertion::Mru);
    assert!(!o.create_if_missing);
    assert!(o.read_only);
    assert_eq!(o.superblock_count, 5);
    assert!(o.encryption_key.is_none());
}

#[test]
fn cost_parameters_without_memory_for_each_lane_are_refused() {
    let starved = Argon2Params { m_cost: 31, t_cost: 2, p_cost: 4 };
    let options = Options::default().argon2_params(starved);
    let check = |e: ChiselError| {
        assert!(matches!(e, ChiselError::InvalidArgon2Params { m_cost: 31, t_cost: 2, p_cost: 4 }));
        assert!(!e.is_fatal());
        assert_eq!(e.to_string(), "invalid Argon2 parameters: m_cost 31, t_cost 2, p_cost 4");
    };
    check(Chisel::open_in_memory_with_options(options.clone()).err().unwrap());
    check(Chisel::open_pages(Vec::new(), options.clone()).err().unwrap());
    check(check_before_open(None, &options.create_if_missing(false)).unwrap_err());
    let enough = Options::default().argon2_params(Argon2Params { m_cost: 32, t_cost: 2, p_cost: 4 });
    assert!(Chisel::open_in_memory_with_options(enough).is_ok());
    let wide = Argon2Params { m_cost: u32::MAX, t_cost: 1, p_cost: u32::MAX };
    assert!(!wide.is_usable());
    assert!(!Argon2Params { m_cost: 0, t_cost: 0, p_cost: 0 }.is_usable());
    assert!(!Argon2Params { m_cost: 64, t_cost: 0, p_cost: 1 }.is_usable());
    assert!(!Argon2Params { m_cost: 64, t_cost: 1, p_cost: 0 }.is_usable());
    assert!(Argon2Params::default().is_usable());
}
