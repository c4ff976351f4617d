use rvkernel::bits::{Perm, PA, PTE, SATP, VA};

#[test]
fn pte_decodes_every_field() {
    let p = PTE::from(0x2000_04cf);
    assert_eq!(p.pa, 0x2000_0400);
    assert_eq!(p.ppn, 0x80001);
    assert_eq!(p.ppn1, 0x200);
    assert_eq!(p.ppn0, 0x1);
    assert_eq!(p.rsw, 0);
    assert!(p.d && p.a && !p.g && !p.u);
    assert!(p.x && p.w && p.r && p.v);
}

#[test]
fn pte_round_trips() {
    for raw in [0u32, 0x2000_04cf, 0xffff_ffff, 0x1234_5301, 0x0000_0300, 0x8000_0010] {
        assert_eq!(PTE::from(raw).into(), raw);
    }
}

#[test]
fn pte_reserved_bits_decode() {
    let p = PTE::from(0x0000_0300);
    assert_eq!(p.rsw, 3);
    assert!(!p.v);
}

#[test]
fn pte_from_pa_drops_offset_and_flags() {
    let p = PTE::from_pa(0x8020_1234);
    assert_eq!(p.ppn, 0x80201);
    assert_eq!(p.pa, 0x2008_0400);
    assert!(!p.v && !p.r && !p.w && !p.x && !p.u && !p.g && !p.a && !p.d);
    assert_eq!(p.into(), 0x2008_0400);
}

#[test]
fn pte_set_perm_sets_only_rwx() {
    let mut p = PTE::from_pa(0x8020_1000);
    p.v = true;
    p.set_perm(&Perm { r: true, w: false, x: true });
    assert!(p.r && !p.w && p.x && p.v);
    assert_eq!(p.into(), 0x2008_040b);
    p.set_perm(&Perm { r: false, w: true, x: false });
    assert_eq!(p.into(), 0x2008_0405);
}

#[test]
fn perm_bits() {
    assert_eq!(Perm { r: true, w: true, x: true }.into(), 0b1110);
    assert_eq!(Perm { r: true, w: false, x: false }.into(), 0b10);
    assert_eq!(Perm { r: false, w: true, x: false }.into(), 0b100);
    assert_eq!(Perm { r: false, w: false, x: true }.into(), 0b1000);
    assert_eq!(Perm { r: false, w: false, x: false }.into(), 0);
}

#[test]
fn satp_encodes_mode_asid_ppn() {
    assert_eq!(SATP::new(1, 0, 0x80201).into(), 0x8008_0201);
    assert_eq!(SATP::new(0, 3, 0x5).into(), 0x00c0_0005);
}

#[test]
fn va_splits_address() {
    let va = VA::from(0x8020_1abc);
    assert_eq!(va.vpn1, 0x200);
    assert_eq!(va.vpn0, 0x201);
    assert_eq!(va.offset, 0xabc);
    assert_eq!(va.vpn(0), Some(0x201));
    assert_eq!(va.vpn(1), Some(0x200));
    assert_eq!(va.vpn(2), None);
}

#[test]
fn pa_joins_fields() {
    let pa = PA { ppn1: 0x200, ppn0: 0x201, offset: 0xabc };
    assert_eq!(pa.into(), 0x8020_1abc);
}

#[test]
fn va_then_pa_gives_address_back() {
    for a in [0u32, 0x1000, 0x8020_1abc, 0xffff_ffff, 0x0040_0fff] {
        let va = VA::from(a);
        let pa = PA { ppn1: va.vpn1, ppn0: va.vpn0, offset: va.offset };
        assert_eq!(pa.into(), a);
    }
}

#[test]
fn encoding_fields_then_decoding_gives_them_back() {
    let mut p = PTE::from(0);
    p.ppn = 0x12345;
    p.pa = 0x12345 << 10;
    p.ppn1 = 0x12345 >> 10;
    p.ppn0 = 0x12345 & 0x3ff;
    p.rsw = 2;
    p.d = true;
    p.u = true;
    p.w = true;
    p.v = true;
    let q = PTE::from(p.into());
    assert_eq!(q.ppn, 0x12345);
    assert_eq!(q.pa, 0x12345 << 10);
    assert_eq!(q.ppn1, 0x48);
    assert_eq!(q.ppn0, 0x345);
    assert_eq!(q.rsw, 2);
    assert!(q.d && !q.a && !q.g && q.u && !q.x && q.w && !q.r && q.v);
}

#[test]
fn joining_then_splitting_gives_fields_back() {
    let a: u32 = PA { ppn1: 0x3ff, ppn0: 0x1, offset: 0xfff }.into();
    assert_eq!(a, 0xffc0_1fff);
    let va = VA::from(a);
    assert_eq!((va.vpn1, va.vpn0, va.offset), (0x3ff, 0x1, 0xfff));
}
