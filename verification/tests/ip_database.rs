use address_generator::ip_database::{IPGeoDatabase, LookupError, ParseErrorKind};

fn test_csv() -> String {
    r#"
        country,ip_start,ip_end,total_ips,last_updated,telco
        gb,2.2.2.0,2.2.2.255,256,12/31/99,"Her Majesty's telco"
        us,1.1.1.0,1.1.1.4,4,12/31/99,test_telco1
        de,3.2.0.0,3.2.255.255,65536,12/31/99,
        "#
        .to_string()
}

fn get_default_instance() -> IPGeoDatabase {
    let mut instance = IPGeoDatabase::new();
    let res = instance.set_underlying_data(test_csv());
    assert_eq!(res, Ok(true));
    instance
}

fn ip(a: u32, b: u32, c: u32, d: u32) -> u32 {
    a * 0x1000000 + b * 0x10000 + c * 0x100 + d
}

#[test]
fn test_instantiation() {
    let instance = IPGeoDatabase::new();
    assert_eq!(instance.cached_country_count(), 0);
}

#[test]
fn test_set_underlying_data() {
    let instance = get_default_instance();
    assert_eq!(instance.country_count(), 3);
}

#[test]
fn test_generate_addresses() {
    let mut instance = get_default_instance();

    let random_address = instance.get_random_address(&"gb".to_string());
    assert!(random_address.is_ok());
}

#[test]
fn test_random_country() {
    let instance = get_default_instance();
    let random_code_opt = instance.get_random_country_code();
    if random_code_opt.is_none() {
        assert!(false, "Received no country code");
    }
    let random_code = random_code_opt.unwrap();

    if random_code == "gb" || random_code == "de" || random_code == "us" {
        assert!(true);
    } else {
        assert!(false, "Received unknown country code '{}'", random_code);
    }
}

#[test]
fn three_records_scenario() {
    let mut db = get_default_instance();
    assert_eq!(db.country_count(), 3);

    let gb = db.get_random_address(&"gb".to_string()).unwrap();
    assert!(ip(2, 2, 2, 1) <= gb && gb <= ip(2, 2, 2, 254));

    let us = db.get_random_address(&"us".to_string()).unwrap();
    assert!(us == ip(1, 1, 1, 1) || us == ip(1, 1, 1, 2) || us == ip(1, 1, 1, 3));

    let fr = db.get_random_address(&"fr".to_string());
    assert_eq!(fr, Err(LookupError::UnknownCountry));
}

#[test]
fn addresses_stay_inside_their_country() {
    let mut db = get_default_instance();
    for _ in 0..100 {
        let gb = db.get_random_address(&"gb".to_string()).unwrap();
        assert!(ip(2, 2, 2, 0) < gb && gb < ip(2, 2, 2, 255));
        // never an address of another country's exclusive range
        assert!(!(ip(1, 1, 1, 0) < gb && gb < ip(1, 1, 1, 4)));
        assert!(!(ip(3, 2, 0, 0) < gb && gb < ip(3, 2, 255, 255)));
    }
}

#[test]
fn bad_record_aborts_whole_ingestion() {
    let mut db = IPGeoDatabase::new();
    let blob = "country,ip_start,ip_end,total_ips,last_updated,telco\n\
                gb,2.2.2.0,2.2.2.255,256,12/31/99,t1\n\
                us,1.1.1.0,1.1.1.4,4,12/31/99,t2\n\
                de,not-an-ip,3.2.255.255,65536,12/31/99,t3"
        .to_string();
    let res = db.set_underlying_data(blob);
    let err = res.unwrap_err();
    assert_eq!(err.kind, ParseErrorKind::IpStart);
    assert_eq!(err.record_index, 2);
    assert!(err.record.contains("not-an-ip"));
    // ingestion is atomic: the two good records before it are absent too
    assert_eq!(db.country_count(), 0);
    assert_eq!(
        db.get_random_address(&"gb".to_string()),
        Err(LookupError::UnknownCountry)
    );
}

#[test]
fn degenerate_range_yields_empty_range_error() {
    let mut db = IPGeoDatabase::new();
    let blob = "country,ip_start,ip_end,total_ips,last_updated,telco\n\
                xx,5.5.5.0,5.5.5.1,2,12/31/99,t"
        .to_string();
    assert_eq!(db.set_underlying_data(blob), Ok(true));
    assert_eq!(
        db.get_random_address(&"xx".to_string()),
        Err(LookupError::EmptyRange)
    );
}

#[test]
fn single_address_range_yields_empty_range_error() {
    let mut db = IPGeoDatabase::new();
    let blob = "country,ip_start,ip_end,total_ips,last_updated,telco\n\
                yy,6.6.6.6,6.6.6.6,1,12/31/99,t"
        .to_string();
    assert_eq!(db.set_underlying_data(blob), Ok(true));
    assert_eq!(
        db.get_random_address(&"yy".to_string()),
        Err(LookupError::EmptyRange)
    );
}

#[test]
fn field_count_error() {
    let mut db = IPGeoDatabase::new();
    let blob = "header\nus,1.1.1.0,1.1.1.4".to_string();
    let err = db.set_underlying_data(blob).unwrap_err();
    assert_eq!(err.kind, ParseErrorKind::FieldCount);
    assert_eq!(err.record_index, 0);
}

#[test]
fn ip_end_error() {
    let mut db = IPGeoDatabase::new();
    let blob = "header\nus,1.1.1.0,1.1.1.444,4,ts,t".to_string();
    let err = db.set_underlying_data(blob).unwrap_err();
    assert_eq!(err.kind, ParseErrorKind::IpEnd);
}

#[test]
fn total_ips_error() {
    let mut db = IPGeoDatabase::new();
    let blob = "header\nus,1.1.1.0,1.1.1.4,4x,ts,t".to_string();
    let err = db.set_underlying_data(blob).unwrap_err();
    assert_eq!(err.kind, ParseErrorKind::TotalIps);
}

#[test]
fn inverted_range_error() {
    let mut db = IPGeoDatabase::new();
    let blob = "header\nus,1.1.1.4,1.1.1.0,4,ts,t".to_string();
    let err = db.set_underlying_data(blob).unwrap_err();
    assert_eq!(err.kind, ParseErrorKind::InvertedRange);
    assert_eq!(db.country_count(), 0);
}

#[test]
fn random_country_none_iff_empty() {
    let db = IPGeoDatabase::new();
    assert!(db.get_random_country_code().is_none());

    let full = get_default_instance();
    assert!(full.get_random_country_code().is_some());
}

#[test]
fn random_country_roughly_uniform() {
    let db = get_default_instance();
    let mut seen_gb = 0u32;
    let mut seen_us = 0u32;
    let mut seen_de = 0u32;
    for _ in 0..300 {
        let code = db.get_random_country_code().unwrap();
        if code == "gb" {
            seen_gb += 1;
        } else if code == "us" {
            seen_us += 1;
        } else if code == "de" {
            seen_de += 1;
        } else {
            panic!("unknown code {}", code);
        }
    }
    assert!(seen_gb > 0 && seen_us > 0 && seen_de > 0);
}

#[test]
fn new_data_replaces_a_country_and_invalidates_its_cache() {
    let mut db = IPGeoDatabase::new();
    let first = "header\ngb,2.2.2.0,2.2.2.255,256,ts,t".to_string();
    assert_eq!(db.set_underlying_data(first), Ok(true));
    let a = db.get_random_address(&"gb".to_string()).unwrap();
    assert!(ip(2, 2, 2, 0) < a && a < ip(2, 2, 2, 255));
    assert_eq!(db.cached_country_count(), 1);

    let second = "header\ngb,9.9.9.0,9.9.9.255,256,ts,t".to_string();
    assert_eq!(db.set_underlying_data(second), Ok(true));
    assert_eq!(db.country_count(), 1);
    assert_eq!(db.cached_country_count(), 0);
    let b = db.get_random_address(&"gb".to_string()).unwrap();
    assert!(ip(9, 9, 9, 0) < b && b < ip(9, 9, 9, 255));
}

#[test]
fn update_keeps_other_countries() {
    let mut db = get_default_instance();
    let more = "header\nfr,8.8.8.0,8.8.8.255,256,ts,t".to_string();
    assert_eq!(db.set_underlying_data(more), Ok(true));
    assert_eq!(db.country_count(), 4);
    let gb = db.get_random_address(&"gb".to_string()).unwrap();
    assert!(ip(2, 2, 2, 0) < gb && gb < ip(2, 2, 2, 255));
}

#[test]
fn two_records_for_one_country_in_one_batch() {
    let mut db = IPGeoDatabase::new();
    let blob = "header\n\
                us,1.1.1.0,1.1.1.4,4,ts,t\n\
                us,7.7.7.0,7.7.7.9,10,ts,t"
        .to_string();
    assert_eq!(db.set_underlying_data(blob), Ok(true));
    assert_eq!(db.country_count(), 1);
    for _ in 0..50 {
        let a = db.get_random_address(&"us".to_string()).unwrap();
        let in_first = ip(1, 1, 1, 0) < a && a < ip(1, 1, 1, 4);
        let in_second = ip(7, 7, 7, 0) < a && a < ip(7, 7, 7, 9);
        assert!(in_first || in_second);
    }
}

#[test]
fn empty_and_header_only_blobs_are_accepted() {
    let mut db = IPGeoDatabase::new();
    assert_eq!(db.set_underlying_data("".to_string()), Ok(true));
    assert_eq!(db.country_count(), 0);
    assert_eq!(
        db.set_underlying_data("country,ip_start,ip_end,total_ips,last_updated,telco".to_string()),
        Ok(true)
    );
    assert_eq!(db.country_count(), 0);
}

#[test]
fn quoted_field_with_comma_still_parses() {
    let mut db = IPGeoDatabase::new();
    let blob = "header\ngb,2.2.2.0,2.2.2.255,256,12/31/99,\"telco, ltd\"".to_string();
    assert_eq!(db.set_underlying_data(blob), Ok(true));
    assert_eq!(db.country_count(), 1);
}

#[test]
fn lookup_error_messages() {
    assert_eq!(
        LookupError::UnknownCountry.message(),
        "unknown country code".to_string()
    );
    assert_eq!(
        LookupError::EmptyRange.message(),
        "country has no usable addresses".to_string()
    );
}
