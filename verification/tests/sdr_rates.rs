use snaprs::sdr::{FirSet, SdrSmpRate};

#[test]
fn to_ndec_table() {
    assert_eq!(SdrSmpRate::SmpRate800.to_ndec(), 2);
    assert_eq!(SdrSmpRate::SmpRate400.to_ndec(), 4);
    assert_eq!(SdrSmpRate::SmpRate200.to_ndec(), 8);
    assert_eq!(SdrSmpRate::SmpRate100.to_ndec(), 16);
}

#[test]
fn from_ndec_table() {
    assert_eq!(SdrSmpRate::from_ndec(2), SdrSmpRate::SmpRate800);
    assert_eq!(SdrSmpRate::from_ndec(4), SdrSmpRate::SmpRate400);
    assert_eq!(SdrSmpRate::from_ndec(8), SdrSmpRate::SmpRate200);
    assert_eq!(SdrSmpRate::from_ndec(16), SdrSmpRate::SmpRate100);
}

#[test]
fn rate_roundtrip() {
    for r in [
        SdrSmpRate::SmpRate800,
        SdrSmpRate::SmpRate400,
        SdrSmpRate::SmpRate200,
        SdrSmpRate::SmpRate100,
    ] {
        assert_eq!(SdrSmpRate::from_ndec(r.to_ndec()), r);
    }
    for n in [2usize, 4, 8, 16] {
        assert_eq!(SdrSmpRate::from_ndec(n).to_ndec(), n);
    }
}

#[test]
fn fir_set_table() {
    assert_eq!(SdrSmpRate::SmpRate800.fir_set(), FirSet::Full);
    assert_eq!(SdrSmpRate::SmpRate400.fir_set(), FirSet::Half);
    assert_eq!(SdrSmpRate::SmpRate200.fir_set(), FirSet::Quarter);
    assert_eq!(SdrSmpRate::SmpRate100.fir_set(), FirSet::Oct);
}
