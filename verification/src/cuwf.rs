use vstd::prelude::*;

verus! {

/// The shape of a waterfall computation: `nch` channels per spectrum,
/// `nbatch` spectra per batch, `nint` spectra summed into one row.
#[derive(Debug, Clone, Copy, PartialEq, Eq, Structural)]
pub struct WfResource {
    pub nch: usize,
    pub nbatch: usize,
    pub nint: usize,
}

/// The shapes whose output length can be computed: rows are integrated
/// over at least one spectrum, and `nch * nbatch` fits in a `usize`.
pub open spec fn shape_ok(nch: usize, nbatch: usize, nint: usize) -> bool {
    &&& nint > 0
    &&& nch * nbatch <= usize::MAX
}

/// The number of output values of one batch: `nch * nbatch / nint`.
pub open spec fn spec_output_len(nch: usize, nbatch: usize, nint: usize) -> int {
    (nch * nbatch) / (nint as int)
}

impl WfResource {
    /// The shape with `nch` channels, `nbatch` spectra per batch and
    /// `nint` spectra per output row.
    pub fn new(nch: usize, nbatch: usize, nint: usize) -> (wf: WfResource)
        ensures
            wf.nch == nch,
            wf.nbatch == nbatch,
            wf.nint == nint,
    {
        WfResource { nch, nbatch, nint }
    }

    /// The number of output values of one batch.
    pub fn output_len(&self) -> (n: usize)
        requires
            shape_ok(self.nch, self.nbatch, self.nint),
        ensures
            n == spec_output_len(self.nch, self.nbatch, self.nint),
    {
        self.nch * self.nbatch / self.nint
    }

    /// Whether the spectra of a batch split into whole rows: `nint`
    /// divides `nbatch`.
    pub fn whole_rows(&self) -> (ok: bool)
        requires
            self.nint > 0,
        ensures
            ok == (self.nbatch % self.nint == 0),
    {
        self.nbatch % self.nint == 0
    }

    /// Whether an output buffer of `len` values fits one batch exactly.
    pub fn accepts_output(&self, len: usize) -> (ok: bool)
        requires
            shape_ok(self.nch, self.nbatch, self.nint),
        ensures
            ok == (len == spec_output_len(self.nch, self.nbatch, self.nint)),
    {
        len == self.output_len()
    }
}

/// When `nint` divides `nbatch`, one batch gives `nbatch / nint` rows of
/// `nch` channels each: the output length is `nch * (nbatch / nint)`.
pub proof fn lemma_output_rows(nch: usize, nbatch: usize, nint: usize)
    requires
        nint > 0,
        nbatch % nint == 0,
    ensures
        spec_output_len(nch, nbatch, nint) == nch * (nbatch / nint),
{
    let q = nbatch / nint;
    assert(nbatch == nint * q) by (nonlinear_arith)
        requires
            nint > 0,
            nbatch % nint == 0,
            q == nbatch / nint,
    ;
    assert((nch * nbatch) / (nint as int) == nch * q) by (nonlinear_arith)
        requires
            nint > 0,
            nbatch == nint * q,
    ;
}

/// The output length is the number of whole rows of `nint` spectra that
/// the `nch * nbatch` values of a batch fill: `nint` times it does not
/// exceed `nch * nbatch`, and `nint` times one more does.
pub proof fn lemma_output_len_floor(nch: usize, nbatch: usize, nint: usize)
    requires
        nint > 0,
    ensures
        0 <= spec_output_len(nch, nbatch, nint),
        spec_output_len(nch, nbatch, nint) * nint <= nch * nbatch,
        nch * nbatch < (spec_output_len(nch, nbatch, nint) + 1) * nint,
{
    let t: int = nch * nbatch;
    let q: int = t / (nint as int);
    assert(0 <= t) by (nonlinear_arith)
        requires
            t == nch * nbatch,
    ;
    assert(0 <= q && q * nint <= t && t < (q + 1) * nint) by (nonlinear_arith)
        requires
            nint > 0,
            0 <= t,
            q == t / (nint as int),
    ;
}

} // verus!
