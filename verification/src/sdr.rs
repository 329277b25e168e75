use vstd::prelude::*;

verus! {

/// Output sample rates offered by the receiver, named by the rate in MSps.
#[derive(Debug, Clone, Copy, PartialEq, Eq, Structural)]
pub enum SdrSmpRate {
    SmpRate800,
    SmpRate400,
    SmpRate200,
    SmpRate100,
}

/// The anti-aliasing filter tables of the down-converter, named by the
/// share of the band they pass.
#[derive(Debug, Clone, Copy, PartialEq, Eq, Structural)]
pub enum FirSet {
    Full,
    Half,
    Quarter,
    Oct,
}

/// The filter table used at each rate.
pub open spec fn spec_fir_set(rate: SdrSmpRate) -> FirSet {
    match rate {
        SdrSmpRate::SmpRate800 => FirSet::Full,
        SdrSmpRate::SmpRate400 => FirSet::Half,
        SdrSmpRate::SmpRate200 => FirSet::Quarter,
        SdrSmpRate::SmpRate100 => FirSet::Oct,
    }
}

/// The decimation factor of each rate.
pub open spec fn spec_ndec(rate: SdrSmpRate) -> usize {
    match rate {
        SdrSmpRate::SmpRate800 => 2,
        SdrSmpRate::SmpRate400 => 4,
        SdrSmpRate::SmpRate200 => 8,
        SdrSmpRate::SmpRate100 => 16,
    }
}

/// The rate named by a decimation factor of the table.
pub open spec fn spec_rate_of(ndec: usize) -> SdrSmpRate {
    if ndec == 2 {
        SdrSmpRate::SmpRate800
    } else if ndec == 4 {
        SdrSmpRate::SmpRate400
    } else if ndec == 8 {
        SdrSmpRate::SmpRate200
    } else {
        SdrSmpRate::SmpRate100
    }
}

/// The decimation factors that name a rate.
pub open spec fn is_valid_ndec(ndec: usize) -> bool {
    ndec == 2 || ndec == 4 || ndec == 8 || ndec == 16
}

impl SdrSmpRate {
    /// The decimation factor of this rate.
    pub fn to_ndec(&self) -> (ndec: usize)
        ensures
            ndec == spec_ndec(*self),
    {
        match self {
            SdrSmpRate::SmpRate800 => 2,
            SdrSmpRate::SmpRate400 => 4,
            SdrSmpRate::SmpRate200 => 8,
            SdrSmpRate::SmpRate100 => 16,
        }
    }

    /// The filter table the down-converter uses at this rate.
    pub fn fir_set(&self) -> (f: FirSet)
        ensures
            f == spec_fir_set(*self),
    {
        match self {
            SdrSmpRate::SmpRate800 => FirSet::Full,
            SdrSmpRate::SmpRate400 => FirSet::Half,
            SdrSmpRate::SmpRate200 => FirSet::Quarter,
            SdrSmpRate::SmpRate100 => FirSet::Oct,
        }
    }

    /// The rate whose decimation factor is `ndec`; only the four factors
    /// of the table name a rate.
    pub fn from_ndec(ndec: usize) -> (rate: SdrSmpRate)
        requires
            is_valid_ndec(ndec),
        ensures
            rate == spec_rate_of(ndec),
    {
        match ndec {
            2 => SdrSmpRate::SmpRate800,
            4 => SdrSmpRate::SmpRate400,
            8 => SdrSmpRate::SmpRate200,
            16 => SdrSmpRate::SmpRate100,
            _ => vstd::pervasive::unreached(),
        }
    }
}

/// A rate is given back by its decimation factor:
/// `SdrSmpRate::from_ndec(r.to_ndec()) == r`.
pub proof fn lemma_rate_of_ndec(rate: SdrSmpRate)
    ensures
        is_valid_ndec(spec_ndec(rate)),
        spec_rate_of(spec_ndec(rate)) == rate,
{
}

/// A valid decimation factor is given back by its rate:
/// `SdrSmpRate::from_ndec(n).to_ndec() == n`.
pub proof fn lemma_ndec_of_rate(ndec: usize)
    requires
        is_valid_ndec(ndec),
    ensures
        spec_ndec(spec_rate_of(ndec)) == ndec,
{
}

/// The decimation factors follow the rates: the fastest rate decimates
/// by 2, and each halving of the rate doubles the factor.
pub proof fn lemma_ndec_halving()
    ensures
        spec_ndec(SdrSmpRate::SmpRate800) == 2,
        spec_ndec(SdrSmpRate::SmpRate400) == 2 * spec_ndec(SdrSmpRate::SmpRate800),
        spec_ndec(SdrSmpRate::SmpRate200) == 2 * spec_ndec(SdrSmpRate::SmpRate400),
        spec_ndec(SdrSmpRate::SmpRate100) == 2 * spec_ndec(SdrSmpRate::SmpRate200),
{
}

/// The filter table passes the share of the band that the decimation
/// keeps: the full band when decimating by 2, half of it by 4, a quarter
/// by 8 and an eighth by 16.
pub proof fn lemma_fir_set_matches_ndec(rate: SdrSmpRate)
    ensures
        spec_ndec(rate) == 2 <==> spec_fir_set(rate) == FirSet::Full,
        spec_ndec(rate) == 4 <==> spec_fir_set(rate) == FirSet::Half,
        spec_ndec(rate) == 8 <==> spec_fir_set(rate) == FirSet::Quarter,
        spec_ndec(rate) == 16 <==> spec_fir_set(rate) == FirSet::Oct,
{
}

} // verus!
