//! Bit-level encodings of Sv32 page-table entries, virtual and physical
//! addresses and the `satp` register.

use vstd::prelude::*;

verus! {

/// Decoded Sv32 page-table entry.
#[derive(Debug, Copy, Clone)]
pub struct PTE {
    pub pa: u32,
    pub ppn: u32,
    pub ppn1: u32,
    pub ppn0: u32,
    pub rsw: u8,
    pub d: bool,
    pub a: bool,
    pub g: bool,
    pub u: bool,
    pub x: bool,
    pub w: bool,
    pub r: bool,
    pub v: bool,
}

/// The decoding of a raw entry, field by field.
pub open spec fn pte_decode(pte: u32) -> PTE {
    PTE {
        pa: pte & 0xffff_fc00u32,
        ppn: (pte & 0xffff_fc00u32) >> 10u32,
        ppn1: (pte & 0xfff0_0000u32) >> 20u32,
        ppn0: (pte & 0x000f_fc00u32) >> 10u32,
        rsw: ((pte & 0x300u32) >> 8u32) as u8,
        d: pte & 0x80u32 != 0,
        a: pte & 0x40u32 != 0,
        g: pte & 0x20u32 != 0,
        u: pte & 0x10u32 != 0,
        x: pte & 0x8u32 != 0,
        w: pte & 0x4u32 != 0,
        r: pte & 0x2u32 != 0,
        v: pte & 0x1u32 != 0,
    }
}

pub open spec fn flag(b: bool, shift: u32) -> u32 {
    if b { 1u32 << shift } else { 0u32 }
}

/// The raw entry that an entry encodes to.
pub open spec fn pte_encode(p: PTE) -> u32 {
    (p.ppn << 10u32) | ((p.rsw as u32) << 8u32) | flag(p.d, 7) | flag(p.a, 6) | flag(p.g, 5)
        | flag(p.u, 4) | flag(p.x, 3) | flag(p.w, 2) | flag(p.r, 1) | flag(p.v, 0)
}

proof fn lemma_low_bits()
    ensures
        1u32 << 0u32 == 0x1u32,
        1u32 << 1u32 == 0x2u32,
        1u32 << 2u32 == 0x4u32,
        1u32 << 3u32 == 0x8u32,
        1u32 << 4u32 == 0x10u32,
        1u32 << 5u32 == 0x20u32,
        1u32 << 6u32 == 0x40u32,
        1u32 << 7u32 == 0x80u32,
{
    assert(1u32 << 0u32 == 0x1u32 && 1u32 << 1u32 == 0x2u32 && 1u32 << 2u32 == 0x4u32 && 1u32
        << 3u32 == 0x8u32 && 1u32 << 4u32 == 0x10u32 && 1u32 << 5u32 == 0x20u32 && 1u32 << 6u32
        == 0x40u32 && 1u32 << 7u32 == 0x80u32) by (bit_vector);
}

fn flag_bit(b: bool, shift: u32) -> (res: u32)
    requires
        shift < 32,
    ensures
        res == flag(b, shift),
{
    if b {
        1u32 << shift
    } else {
        0u32
    }
}

impl PTE {
    /// Decodes a raw 32-bit entry.
    pub fn from(pte: u32) -> (res: PTE)
        ensures
            res == pte_decode(pte),
    {
        PTE {
            pa: pte & 0xffff_fc00u32,
            ppn: (pte & 0xffff_fc00u32) >> 10u32,
            ppn1: (pte & 0xfff0_0000u32) >> 20u32,
            ppn0: (pte & 0x000f_fc00u32) >> 10u32,
            rsw: ((pte & 0x300u32) >> 8u32) as u8,
            d: pte & 0x80u32 != 0,
            a: pte & 0x40u32 != 0,
            g: pte & 0x20u32 != 0,
            u: pte & 0x10u32 != 0,
            x: pte & 0x8u32 != 0,
            w: pte & 0x4u32 != 0,
            r: pte & 0x2u32 != 0,
            v: pte & 0x1u32 != 0,
        }
    }

    /// Encodes the entry back into its raw 32-bit form.
    pub fn into(self) -> (res: u32)
        ensures
            res == pte_encode(self),
    {
        (self.ppn << 10u32) | ((self.rsw as u32) << 8u32) | flag_bit(self.d, 7) | flag_bit(
            self.a,
            6,
        ) | flag_bit(self.g, 5) | flag_bit(self.u, 4) | flag_bit(self.x, 3) | flag_bit(self.w, 2)
            | flag_bit(self.r, 1) | flag_bit(self.v, 0)
    }
}

/// Encoding a decoded entry gives back the raw entry, for every raw value.
pub proof fn law_pte_encode_decode(pte: u32)
    ensures
        pte_encode(pte_decode(pte)) == pte,
{
    let p = pte_decode(pte);
    lemma_low_bits();
    assert({
        &&& (((pte & 0x300u32) >> 8u32) as u8) as u32 == (pte & 0x300u32) >> 8u32
        &&& (pte & 0x80u32 != 0 ==> pte & 0x80u32 == 0x80u32) && (pte & 0x40u32 != 0 ==> pte
            & 0x40u32 == 0x40u32) && (pte & 0x20u32 != 0 ==> pte & 0x20u32 == 0x20u32)
        &&& (pte & 0x10u32 != 0 ==> pte & 0x10u32 == 0x10u32) && (pte & 0x8u32 != 0 ==> pte
            & 0x8u32 == 0x8u32) && (pte & 0x4u32 != 0 ==> pte & 0x4u32 == 0x4u32)
        &&& (pte & 0x2u32 != 0 ==> pte & 0x2u32 == 0x2u32) && (pte & 0x1u32 != 0 ==> pte
            & 0x1u32 == 0x1u32)
    }) by (bit_vector);
    assert(((pte & 0xffff_fc00u32) >> 10u32) << 10u32 | ((pte & 0x300u32) >> 8u32) << 8u32 | (pte
        & 0x80u32) | (pte & 0x40u32) | (pte & 0x20u32) | (pte & 0x10u32) | (pte & 0x8u32) | (pte
        & 0x4u32) | (pte & 0x2u32) | (pte & 0x1u32) == pte) by (bit_vector);
}


/// A decoded entry is well formed when its redundant fields agree with `ppn`
/// and every field fits in its bit range.
pub open spec fn pte_well_formed(p: PTE) -> bool {
    &&& p.ppn < 0x40_0000
    &&& p.pa == p.ppn << 10u32
    &&& p.ppn1 == p.ppn >> 10u32
    &&& p.ppn0 == p.ppn & 0x3ffu32
    &&& p.rsw < 4
}

/// Decoding always yields a well-formed entry.
pub proof fn law_pte_decode_well_formed(pte: u32)
    ensures
        pte_well_formed(pte_decode(pte)),
{
    assert({
        &&& (pte & 0xffff_fc00u32) >> 10u32 < 0x40_0000u32
        &&& pte & 0xffff_fc00u32 == ((pte & 0xffff_fc00u32) >> 10u32) << 10u32
        &&& (pte & 0xfff0_0000u32) >> 20u32 == ((pte & 0xffff_fc00u32) >> 10u32) >> 10u32
        &&& (pte & 0x000f_fc00u32) >> 10u32 == ((pte & 0xffff_fc00u32) >> 10u32) & 0x3ffu32
        &&& (pte & 0x300u32) >> 8u32 < 4u32
    }) by (bit_vector);
}

/// Decoding the encoding of a well-formed entry gives back that entry.
pub proof fn law_pte_decode_encode(p: PTE)
    requires
        pte_well_formed(p),
    ensures
        pte_decode(pte_encode(p)) == p,
{
    let ppn = p.ppn;
    let rsw = p.rsw as u32;
    let d = flag(p.d, 7);
    let a = flag(p.a, 6);
    let g = flag(p.g, 5);
    let u = flag(p.u, 4);
    let x = flag(p.x, 3);
    let w = flag(p.w, 2);
    let r = flag(p.r, 1);
    let v = flag(p.v, 0);
    let e = (ppn << 10u32) | (rsw << 8u32) | d | a | g | u | x | w | r | v;
    assert(e == pte_encode(p));
    lemma_low_bits();
    assert(d == 0 || d == 0x80u32);
    assert(a == 0 || a == 0x40u32);
    assert(g == 0 || g == 0x20u32);
    assert(u == 0 || u == 0x10u32);
    assert(x == 0 || x == 0x8u32);
    assert(w == 0 || w == 0x4u32);
    assert(r == 0 || r == 0x2u32);
    assert(v == 0 || v == 0x1u32);
    assert(
        ppn < 0x40_0000u32 && rsw < 4u32 && (d == 0 || d == 0x80u32) && (a == 0 || a == 0x40u32)
            && (g == 0 || g == 0x20u32) && (u == 0 || u == 0x10u32) && (x == 0 || x == 0x8u32) && (w
            == 0 || w == 0x4u32) && (r == 0 || r == 0x2u32) && (v == 0 || v == 0x1u32) && e == (ppn
            << 10u32) | (rsw << 8u32) | d | a | g | u | x | w | r | v ==> {
            &&& e & 0xffff_fc00u32 == ppn << 10u32
            &&& (e & 0xffff_fc00u32) >> 10u32 == ppn
            &&& (e & 0xfff0_0000u32) >> 20u32 == ppn >> 10u32
            &&& (e & 0x000f_fc00u32) >> 10u32 == ppn & 0x3ffu32
            &&& (e & 0x300u32) >> 8u32 == rsw
            &&& (e & 0x80u32 != 0) == (d != 0)
            &&& (e & 0x40u32 != 0) == (a != 0)
            &&& (e & 0x20u32 != 0) == (g != 0)
            &&& (e & 0x10u32 != 0) == (u != 0)
            &&& (e & 0x8u32 != 0) == (x != 0)
            &&& (e & 0x4u32 != 0) == (w != 0)
            &&& (e & 0x2u32 != 0) == (r != 0)
            &&& (e & 0x1u32 != 0) == (v != 0)
        }) by (bit_vector);
    assert(((rsw as u8) as u32) == rsw);
}


/// Each field of a decoded entry reads its own bits of the raw Sv32 entry:
/// V, R, W, X, U, G, A, D are bits 0 to 7, RSW bits 8 and 9, and the page
/// number the bits from 10 up.
pub proof fn law_pte_decode_fields(pte: u32)
    ensures
        pte_decode(pte).v == (pte & 1 != 0),
        pte_decode(pte).r == (pte & 2 != 0),
        pte_decode(pte).w == (pte & 4 != 0),
        pte_decode(pte).x == (pte & 8 != 0),
        pte_decode(pte).u == (pte & 0x10 != 0),
        pte_decode(pte).g == (pte & 0x20 != 0),
        pte_decode(pte).a == (pte & 0x40 != 0),
        pte_decode(pte).d == (pte & 0x80 != 0),
        pte_decode(pte).rsw as u32 == (pte >> 8u32) & 3,
        pte_decode(pte).ppn == pte >> 10u32,
        pte_decode(pte).pa == (pte >> 10u32) << 10u32,
        pte_decode(pte).ppn1 == pte >> 20u32,
        pte_decode(pte).ppn0 == (pte >> 10u32) & 0x3ff,
{
    assert({
        &&& (pte & 0xffff_fc00u32) >> 10u32 == pte >> 10u32
        &&& pte & 0xffff_fc00u32 == (pte >> 10u32) << 10u32
        &&& (pte & 0xfff0_0000u32) >> 20u32 == pte >> 20u32
        &&& (pte & 0x000f_fc00u32) >> 10u32 == (pte >> 10u32) & 0x3ffu32
        &&& (pte & 0x300u32) >> 8u32 == (pte >> 8u32) & 3u32
        &&& (pte & 0x300u32) >> 8u32 < 4u32
    }) by (bit_vector);
    assert((((pte & 0x300u32) >> 8u32) as u8) as u32 == (pte & 0x300u32) >> 8u32) by (bit_vector);
}

/// Encoding puts each flag at its own Sv32 bit (V, R, W, X, U, G, A, D at
/// bits 0 to 7), RSW at bits 8 and 9 and the page number from bit 10 up.
pub proof fn law_pte_encode_fields(p: PTE)
    ensures
        (pte_encode(p) & 1 != 0) == p.v,
        (pte_encode(p) & 2 != 0) == p.r,
        (pte_encode(p) & 4 != 0) == p.w,
        (pte_encode(p) & 8 != 0) == p.x,
        (pte_encode(p) & 0x10 != 0) == p.u,
        (pte_encode(p) & 0x20 != 0) == p.g,
        (pte_encode(p) & 0x40 != 0) == p.a,
        (pte_encode(p) & 0x80 != 0) == p.d,
        p.rsw < 4 ==> (pte_encode(p) >> 8u32) & 3 == p.rsw as u32,
        p.rsw < 4 && p.ppn < 0x40_0000 ==> pte_encode(p) >> 10u32 == p.ppn,
{
    let ppn = p.ppn;
    let rsw = p.rsw as u32;
    let d = flag(p.d, 7);
    let a = flag(p.a, 6);
    let g = flag(p.g, 5);
    let u = flag(p.u, 4);
    let x = flag(p.x, 3);
    let w = flag(p.w, 2);
    let r = flag(p.r, 1);
    let v = flag(p.v, 0);
    let e = (ppn << 10u32) | (rsw << 8u32) | d | a | g | u | x | w | r | v;
    assert(e == pte_encode(p));
    lemma_low_bits();
    assert(rsw < 256u32);
    assert(
        rsw < 256u32 && (d == 0 || d == 0x80u32) && (a == 0 || a == 0x40u32)
            && (g == 0 || g == 0x20u32) && (u == 0 || u == 0x10u32) && (x == 0 || x == 0x8u32) && (w
            == 0 || w == 0x4u32) && (r == 0 || r == 0x2u32) && (v == 0 || v == 0x1u32) && e == (ppn
            << 10u32) | (rsw << 8u32) | d | a | g | u | x | w | r | v ==> {
            &&& (e & 0x80u32 != 0) == (d != 0)
            &&& (e & 0x40u32 != 0) == (a != 0)
            &&& (e & 0x20u32 != 0) == (g != 0)
            &&& (e & 0x10u32 != 0) == (u != 0)
            &&& (e & 0x8u32 != 0) == (x != 0)
            &&& (e & 0x4u32 != 0) == (w != 0)
            &&& (e & 0x2u32 != 0) == (r != 0)
            &&& (e & 0x1u32 != 0) == (v != 0)
            &&& (rsw < 4u32 ==> (e >> 8u32) & 3u32 == rsw)
            &&& (rsw < 4u32 && ppn < 0x40_0000u32 ==> e >> 10u32 == ppn)
        }) by (bit_vector);
}

/// Access permissions of a mapping.
pub struct Perm {
    pub r: bool,
    pub w: bool,
    pub x: bool,
}

pub open spec fn perm_encode(p: Perm) -> u32 {
    flag(p.r, 1) | flag(p.w, 2) | flag(p.x, 3)
}

impl Perm {
    /// The permission bits of a page-table entry.
    pub fn into(self) -> (res: u32)
        ensures
            res == perm_encode(self),
            res == (if self.r { 0b10u32 } else { 0 }) | (if self.w { 0b100u32 } else { 0 }) | (
            if self.x {
                0b1000u32
            } else {
                0
            }),
    {
        proof {
            lemma_low_bits();
        }
        let r: u32 = if self.r {
            0b10
        } else {
            0
        };
        let w: u32 = if self.w {
            0b100
        } else {
            0
        };
        let x: u32 = if self.x {
            0b1000
        } else {
            0
        };
        let res = r | w | x;
        res
    }
}

impl PTE {
    /// The entry that points at the page holding physical address `pa`,
    /// with every flag cleared.
    pub fn from_pa(pa: u32) -> (res: PTE)
        ensures
            res == pte_decode((pa & !0xfffu32) >> 2u32),
            res.ppn == pa >> 12u32,
            pte_encode(res) == (pa >> 12u32) << 10u32,
            !res.v && !res.r && !res.w && !res.x && !res.u && !res.g && !res.a && !res.d,
            res.rsw == 0,
    {
        assert(1u32 << 12u32 == 0x1000u32) by (bit_vector);
        let mask: u32 = (1u32 << 12u32) - 1;
        let pte = (pa & !mask) >> 2u32;
        let res = PTE::from(pte);
        proof {
            let e = (pa & !0xfffu32) >> 2u32;
            assert((e & 0xffff_fc00u32) >> 10u32 == pa >> 12u32) by (bit_vector)
                requires
                    e == (pa & !0xfffu32) >> 2u32,
            ;
            assert(e & 0x3ffu32 == 0) by (bit_vector)
                requires
                    e == (pa & !0xfffu32) >> 2u32,
            ;
            assert(e & 0x300u32 == 0 && e & 0x80u32 == 0 && e & 0x40u32 == 0 && e & 0x20u32 == 0
                && e & 0x10u32 == 0 && e & 0x8u32 == 0 && e & 0x4u32 == 0 && e & 0x2u32 == 0 && e
                & 0x1u32 == 0) by (bit_vector)
                requires
                    e & 0x3ffu32 == 0,
            ;
            assert((0u32 >> 8u32) as u8 == 0u8) by (bit_vector);
            assert(e == (pa >> 12u32) << 10u32) by (bit_vector)
                requires
                    e == (pa & !0xfffu32) >> 2u32,
            ;
            law_pte_encode_decode(e);
        }
        res
    }

    /// Copies the read, write and execute permissions into the entry.
    pub fn set_perm(&mut self, perm: &Perm)
        ensures
            *final(self) == (PTE { r: perm.r, w: perm.w, x: perm.x, ..*old(self) }),
    {
        self.r = perm.r;
        self.w = perm.w;
        self.x = perm.x;
    }
}

/// Value of the `satp` register: translation mode, address-space id and the
/// page number of the root page table.
#[derive(Debug)]
pub struct SATP {
    mode: u32,
    asid: u32,
    ppn: u32,
}

pub open spec fn satp_encode(mode: u32, asid: u32, ppn: u32) -> u32 {
    (mode << 31u32) | (asid << 22u32) | ppn
}

/// The `satp` value holds the root table's page number in its low 22 bits,
/// the address-space id in bits 22 to 30 and the mode in bit 31:
/// `mode * 2^31 + asid * 2^22 + ppn`.
pub proof fn law_satp_fields(mode: u32, asid: u32, ppn: u32)
    requires
        mode < 2,
        asid < 0x200,
        ppn < 0x40_0000,
    ensures
        satp_encode(mode, asid, ppn) & 0x3f_ffff == ppn,
        (satp_encode(mode, asid, ppn) >> 22u32) & 0x1ff == asid,
        satp_encode(mode, asid, ppn) >> 31u32 == mode,
        satp_encode(mode, asid, ppn) as int == mode * 0x8000_0000 + asid * 0x40_0000 + ppn,
{
    let e = satp_encode(mode, asid, ppn);
    assert(e & 0x3f_ffffu32 == ppn && (e >> 22u32) & 0x1ffu32 == asid && e >> 31u32 == mode) by (bit_vector)
        requires
            mode < 2u32,
            asid < 0x200u32,
            ppn < 0x40_0000u32,
            e == (mode << 31u32) | (asid << 22u32) | ppn,
    ;
    assert(e == (e >> 31u32) * 0x8000_0000u32 + ((e >> 22u32) & 0x1ffu32) * 0x40_0000u32 + (e & 0x3f_ffffu32))
        by (bit_vector);
}

impl SATP {
    pub closed spec fn mode(&self) -> u32 {
        self.mode
    }

    pub closed spec fn asid(&self) -> u32 {
        self.asid
    }

    pub closed spec fn ppn(&self) -> u32 {
        self.ppn
    }

    /// Builds the register value from its three fields.
    pub fn new(mode: u32, asid: u32, ppn: u32) -> (res: SATP)
        ensures
            res.mode() == mode,
            res.asid() == asid,
            res.ppn() == ppn,
    {
        SATP { mode, asid, ppn }
    }

    /// The raw register value.
    pub fn into(self) -> (res: u32)
        ensures
            res == satp_encode(self.mode(), self.asid(), self.ppn()),
    {
        let mut satp: u32 = 0;
        satp = satp | (self.mode << 31u32);
        satp = satp | (self.asid << 22u32);
        satp = satp | self.ppn;
        proof {
            let m = self.mode << 31u32;
            assert(0u32 | m == m) by (bit_vector);
        }
        satp
    }
}

/// A virtual address split into its two page-number fields and the offset.
#[derive(Debug)]
pub struct VA {
    pub vpn1: u32,
    pub vpn0: u32,
    pub offset: u32,
}

pub open spec fn va_vpn1(val: u32) -> u32 {
    (val & 0xffc0_0000u32) >> 22u32
}

pub open spec fn va_vpn0(val: u32) -> u32 {
    (val & 0x003f_f000u32) >> 12u32
}

pub open spec fn va_offset(val: u32) -> u32 {
    val & 0xfffu32
}

impl VA {
    /// Splits a virtual address.
    pub fn from(val: u32) -> (res: VA)
        ensures
            res.vpn1 == va_vpn1(val),
            res.vpn0 == va_vpn0(val),
            res.offset == va_offset(val),
            res.vpn1 < 1024 && res.vpn0 < 1024 && res.offset < 4096,
    {
        proof {
            lemma_va_fields_bounded(val);
        }
        VA {
            vpn1: (val & 0xffc0_0000u32) >> 22u32,
            vpn0: (val & 0x003f_f000u32) >> 12u32,
            offset: val & 0xfffu32,
        }
    }

    /// The page number at a level of the tree: level 1 for the root table,
    /// level 0 for the leaf table, nothing for any other level.
    pub fn vpn(&self, level: u32) -> (res: Option<u32>)
        ensures
            level == 0 ==> res == Some(self.vpn0),
            level == 1 ==> res == Some(self.vpn1),
            level > 1 ==> res.is_none(),
    {
        match level {
            0 => Some(self.vpn0),
            1 => Some(self.vpn1),
            _ => None,
        }
    }
}

pub proof fn lemma_va_fields_bounded(val: u32)
    ensures
        va_vpn1(val) < 1024,
        va_vpn0(val) < 1024,
        va_offset(val) < 4096,
        va_vpn1(val) == val >> 22u32,
        va_vpn0(val) == (val >> 12u32) & 0x3ffu32,
{
    assert({
        &&& (val & 0xffc0_0000u32) >> 22u32 < 1024u32
        &&& (val & 0x003f_f000u32) >> 12u32 < 1024u32
        &&& val & 0xfffu32 < 4096u32
        &&& (val & 0xffc0_0000u32) >> 22u32 == val >> 22u32
        &&& (val & 0x003f_f000u32) >> 12u32 == (val >> 12u32) & 0x3ffu32
    }) by (bit_vector);
}

/// A physical address split into page-number fields and the offset.
#[derive(Debug)]
pub struct PA {
    pub ppn1: u32,
    pub ppn0: u32,
    pub offset: u32,
}

pub open spec fn pa_encode(p: PA) -> u32 {
    (p.ppn1 << 22u32) | (p.ppn0 << 12u32) | p.offset
}

impl PA {
    /// Joins the fields back into an address.
    pub fn into(self) -> (res: u32)
        ensures
            res == pa_encode(self),
    {
        let ppn1 = self.ppn1 << 22u32;
        let ppn0 = self.ppn0 << 12u32;
        ppn1 | ppn0 | self.offset
    }
}

/// Joining the fields of a split address gives back the address.
pub proof fn law_va_split_join(val: u32)
    ensures
        pa_encode(PA { ppn1: va_vpn1(val), ppn0: va_vpn0(val), offset: va_offset(val) }) == val,
{
    assert(((val & 0xffc0_0000u32) >> 22u32) << 22u32 | ((val & 0x003f_f000u32) >> 12u32) << 12u32
        | (val & 0xfffu32) == val) by (bit_vector);
}

/// Splitting a joined address gives back fields that fit their widths.
pub proof fn law_pa_join_split(p: PA)
    requires
        p.ppn1 < 1024,
        p.ppn0 < 1024,
        p.offset < 4096,
    ensures
        va_vpn1(pa_encode(p)) == p.ppn1,
        va_vpn0(pa_encode(p)) == p.ppn0,
        va_offset(pa_encode(p)) == p.offset,
{
    let (a, b, c) = (p.ppn1, p.ppn0, p.offset);
    assert(a < 1024u32 && b < 1024u32 && c < 4096u32 ==> {
        &&& ((a << 22u32 | b << 12u32 | c) & 0xffc0_0000u32) >> 22u32 == a
        &&& ((a << 22u32 | b << 12u32 | c) & 0x003f_f000u32) >> 12u32 == b
        &&& (a << 22u32 | b << 12u32 | c) & 0xfffu32 == c
    }) by (bit_vector);
}

} // verus!
