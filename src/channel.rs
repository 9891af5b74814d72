use vstd::prelude::*;

verus! {

/// A channel that a node reads its samples from.
pub trait In<S> {
    /// The samples the channel currently holds.
    spec fn received(&self) -> Seq<S>;

    /// Hand the channel the samples in `src`; they become its current contents.
    fn input(&mut self, src: &[S])
        ensures
            final(self).received() == src@,
    ;
}

/// The number of samples a read into a buffer of length `room` writes, when the channel holds
/// `available` samples: all of them if they fit, else as many as fit.
pub open spec fn written_count(available: nat, room: nat) -> nat {
    if available <= room {
        available
    } else {
        room
    }
}

/// A channel that a node writes its samples to.
///
/// Reading takes `&self`, so repeated reads agree until the owning node runs again.
pub trait Out<S> {
    /// The samples that the next read produces.
    spec fn samples(&self) -> Seq<S>;

    /// The number of samples that the next call of `output` produces.
    fn num_samples(&self) -> (n: usize)
        ensures
            n == self.samples().len(),
    ;

    /// Fill the front of `dst` with the channel's samples and return how many were written:
    /// all of them when `dst` is long enough, else as many as fit. Entries past that count are
    /// left untouched.
    fn output(&self, dst: &mut [S]) -> (written: usize)
        ensures
            written == written_count(self.samples().len(), old(dst)@.len()),
            final(dst)@.len() == old(dst)@.len(),
            forall|i: int| 0 <= i < written ==> final(dst)@[i] == self.samples()[i],
            forall|i: int| written <= i < old(dst)@.len() ==> final(dst)@[i] == old(dst)@[i],
    ;
}

}
