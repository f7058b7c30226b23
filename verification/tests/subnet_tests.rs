use subnet_overlap::{
    detect_collisions, generate_mask, is_valid_mask, number_ones, Address, MaskError, Subnet,
};

#[test]
fn host_count() {
    let subnet = Subnet::new(Address(140, 10, 10, 0), Address(255, 255, 255, 128));
    let hosts = subnet.number_hosts();
    assert_eq!(hosts, 126);
}

#[test]
fn add_address() {
    let address = Address(140, 10, 10, 0);
    assert_eq!(address.add_offset(0), Address(140, 10, 10, 0));
    assert_eq!(address.add_offset(1), Address(140, 10, 10, 1));
    assert_eq!(address.add_offset(256), Address(140, 10, 11, 0));
    assert_eq!(address.add_offset(100), Address(140, 10, 10, 100));
    assert_eq!(address.add_offset(65536), Address(140, 11, 10, 0));
}

#[test]
fn check_addresses() {
    let address_1 = Address(140, 10, 10, 0);
    let address_2 = Address(140, 10, 10, 0);
    let subnet_mask = Address(255, 255, 255, 240);

    let subnet_1 = Subnet::new(address_1, subnet_mask);
    let subnet_2 = Subnet::new(address_2, subnet_mask);

    assert_eq!(true, subnet_1.collision(&subnet_2));

    let address_2 = Address(140, 20, 10, 0);
    let subnet_2 = Subnet::new(address_2, subnet_mask);

    assert_eq!(false, subnet_1.collision(&subnet_2));
}

#[test]
fn mask_generation() {
    let mask_u32 = 8;
    let subnet_mask = generate_mask(mask_u32).unwrap();
    assert_eq!(subnet_mask, Address(255, 0, 0, 0));

    let mask_u32 = 16;
    let subnet_mask = generate_mask(mask_u32).unwrap();
    assert_eq!(subnet_mask, Address(255, 255, 0, 0));

    let mask_u32 = 24;
    let subnet_mask = generate_mask(mask_u32).unwrap();
    assert_eq!(subnet_mask, Address(255, 255, 255, 0));

    let mask_u32 = 32;
    let subnet_mask = generate_mask(mask_u32).unwrap();
    assert_eq!(subnet_mask, Address(255, 255, 255, 255));
}

#[test]
fn mask_generation_boundaries() {
    assert_eq!(generate_mask(0).unwrap(), Address(0, 0, 0, 0));
    assert_eq!(generate_mask(25).unwrap(), Address(255, 255, 255, 128));
    assert_eq!(generate_mask(33), Err(MaskError::InvalidPrefixLength));
    assert_eq!(generate_mask(u32::MAX), Err(MaskError::InvalidPrefixLength));
}

#[test]
fn mask_validity() {
    assert!(is_valid_mask(Address(0, 0, 0, 0)));
    assert!(is_valid_mask(Address(255, 255, 255, 128)));
    assert!(is_valid_mask(Address(255, 255, 255, 255)));
    assert!(!is_valid_mask(Address(255, 0, 255, 0)));
    assert!(!is_valid_mask(Address(0, 0, 0, 1)));
}

#[test]
fn ones_per_octet() {
    assert_eq!(number_ones(0), 0);
    assert_eq!(number_ones(1), 1);
    assert_eq!(number_ones(128), 1);
    assert_eq!(number_ones(170), 4);
    assert_eq!(number_ones(240), 4);
    assert_eq!(number_ones(255), 8);
}

#[test]
fn linear_value() {
    assert_eq!(Address(1, 2, 3, 4).to_linear(), 0x01020304);
    assert_eq!(Address(255, 255, 255, 255).to_linear(), u32::MAX);
    assert_eq!(Address(0, 0, 0, 0).to_linear(), 0);
}

#[test]
fn masking() {
    assert_eq!(
        Address(140, 10, 10, 77).mask(Address(255, 255, 255, 240)),
        Address(140, 10, 10, 64)
    );
    let subnet = Subnet::new(Address(140, 10, 10, 77), Address(255, 255, 255, 240));
    assert_eq!(subnet.network_address(), Address(140, 10, 10, 64));
}

#[test]
fn carry_quirks() {
    // a carry into an octet overwrites it with 255 minus the offset byte
    assert_eq!(Address(1, 2, 3, 255).add_offset(1), Address(1, 2, 4, 254));
    // the second octet's carry branch reads the third offset byte
    assert_eq!(Address(1, 255, 3, 4).add_offset(0x10000), Address(2, 255, 3, 4));
    assert_eq!(Address(1, 255, 3, 4).add_offset(0x10100), Address(2, 254, 4, 4));
    // a carry past the top octet is dropped
    assert_eq!(Address(255, 2, 3, 4).add_offset(0x01000000), Address(0, 2, 3, 4));
}

#[test]
fn host_count_boundaries() {
    let slash_31 = Subnet::new(Address(10, 0, 0, 0), Address(255, 255, 255, 254));
    assert_eq!(slash_31.number_hosts(), 0);
    assert_eq!(slash_31.number_addresses(), 2);
    let slash_32 = Subnet::new(Address(10, 0, 0, 0), Address(255, 255, 255, 255));
    assert_eq!(slash_32.number_hosts(), 0);
    assert_eq!(slash_32.number_addresses(), 2);
    let slash_24 = Subnet::new(Address(10, 0, 0, 0), Address(255, 255, 255, 0));
    assert_eq!(slash_24.number_hosts(), 254);
    assert_eq!(slash_24.number_addresses(), 256);
}

#[test]
fn enumeration_order_and_length() {
    let subnet = Subnet::new(Address(140, 10, 10, 0), Address(255, 255, 255, 240));
    let addresses = subnet.generate_addresses();
    assert_eq!(addresses.len(), subnet.number_addresses() as usize);
    assert_eq!(addresses[0], Address(140, 10, 10, 0));
    assert_eq!(addresses[1], Address(140, 10, 10, 1));
    assert_eq!(addresses[15], Address(140, 10, 10, 15));
    for k in 0..addresses.len() {
        for l in (k + 1)..addresses.len() {
            assert_ne!(addresses[k], addresses[l]);
        }
    }
}

#[test]
fn enumeration_full_mask() {
    let plain = Subnet::new(Address(9, 9, 9, 9), Address(255, 255, 255, 255));
    assert_eq!(plain.generate_addresses(), vec![Address(9, 9, 9, 9), Address(9, 9, 9, 10)]);
    // the historical carry scheme shows through at the octet boundary
    let edge = Subnet::new(Address(9, 9, 254, 255), Address(255, 255, 255, 255));
    assert_eq!(
        edge.generate_addresses(),
        vec![Address(9, 9, 254, 255), Address(9, 9, 255, 254)]
    );
}

#[test]
fn enumeration_support() {
    let fine = Subnet::new(Address(140, 10, 10, 0), Address(255, 255, 255, 240));
    assert!(fine.supports_enumeration());
    let zero_mask = Subnet::new(Address(140, 10, 10, 0), Address(0, 0, 0, 0));
    assert!(!zero_mask.supports_enumeration());
    let octet_overflow = Subnet::new(Address(1, 1, 255, 255), Address(255, 255, 255, 255));
    assert!(!octet_overflow.supports_enumeration());
}

#[test]
fn collision_is_symmetric() {
    let a = Subnet::new(Address(140, 10, 10, 0), Address(255, 255, 255, 240));
    let b = Subnet::new(Address(140, 10, 10, 8), Address(255, 255, 255, 248));
    let c = Subnet::new(Address(140, 20, 10, 0), Address(255, 255, 255, 240));
    assert_eq!(a.collision(&b), b.collision(&a));
    assert!(a.collision(&b));
    assert_eq!(a.collision(&c), c.collision(&a));
    assert!(!a.collision(&c));
}

#[test]
fn shared_addresses() {
    let wide = Subnet::new(Address(10, 0, 0, 0), Address(255, 255, 255, 248));
    let narrow = Subnet::new(Address(10, 0, 0, 4), Address(255, 255, 255, 252));
    let shared = wide.colliding_addresses(&narrow);
    assert_eq!(
        shared,
        vec![
            Address(10, 0, 0, 4),
            Address(10, 0, 0, 5),
            Address(10, 0, 0, 6),
            Address(10, 0, 0, 7),
        ]
    );
    let apart = Subnet::new(Address(10, 0, 1, 0), Address(255, 255, 255, 252));
    assert_eq!(wide.colliding_addresses(&apart), vec![]);
}

#[test]
fn empty_and_single_collections() {
    let none: Vec<Subnet> = Vec::new();
    assert_eq!(detect_collisions(&none).len(), 0);
    let one = vec![Subnet::new(Address(140, 10, 10, 0), Address(255, 255, 255, 240))];
    assert_eq!(detect_collisions(&one).len(), 0);
}

#[test]
fn pair_reports() {
    let mask = generate_mask(28).unwrap();
    let subnets = vec![
        Subnet::new_str(Address(140, 10, 10, 0), mask, String::from("140.10.10.0/28")),
        Subnet::new_str(Address(140, 20, 10, 0), mask, String::from("140.20.10.0/28")),
        Subnet::new_str(Address(140, 10, 10, 0), mask, String::from("140.10.10.0/28")),
        Subnet::new_str(Address(140, 10, 10, 8), mask, String::from("140.10.10.8/28")),
    ];
    let reports = detect_collisions(&subnets);
    // the pair (0, 2) is the same declaration twice and is skipped
    assert_eq!(reports.len(), 5);

    assert_eq!(reports[0].first_index, 0);
    assert_eq!(reports[0].second_index, 1);
    assert_eq!(reports[0].first, "140.10.10.0/28");
    assert_eq!(reports[0].second, "140.20.10.0/28");
    assert!(!reports[0].collided);

    assert_eq!(reports[1].first_index, 0);
    assert_eq!(reports[1].second_index, 3);
    assert!(reports[1].collided);

    assert_eq!(reports[2].first_index, 1);
    assert_eq!(reports[2].second_index, 2);
    assert!(!reports[2].collided);

    assert_eq!(reports[3].first_index, 1);
    assert_eq!(reports[3].second_index, 3);
    assert!(!reports[3].collided);

    assert_eq!(reports[4].first_index, 2);
    assert_eq!(reports[4].second_index, 3);
    assert!(reports[4].collided);
}

#[test]
fn identical_subnets_collide() {
    let mask = Address(255, 255, 255, 240);
    let one = Subnet::new_str(Address(140, 10, 10, 0), mask, String::from("a"));
    let two = Subnet::new_str(Address(140, 10, 10, 0), mask, String::from("b"));
    assert!(one.collision(&two));
    let reports = detect_collisions(&vec![one, two]);
    assert_eq!(reports.len(), 1);
    assert!(reports[0].collided);
}
