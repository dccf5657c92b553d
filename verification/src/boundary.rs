//! The boundary layer: term-frequency maps addressed through opaque integer
//! handles, with every operation degrading to a silent no-op or an absent
//! result on an absent handle, an absent key, or a key that is not UTF-8.
//! A missing or stale handle, and a missing key, stand for the null
//! references a foreign caller may pass.

use vstd::prelude::*;
use vstd::utf8::valid_utf8;

use crate::encoding::check_utf8;
use crate::store::{copy_bytes, TermFrequencyMap};

verus! {

/// All term-frequency maps created so far, addressed by handle. A handle is
/// the index a creation returned; anything else designates no map.
pub struct TermFreqStore {
    maps: Vec<TermFrequencyMap>,
}

impl View for TermFreqStore {
    type V = Seq<Map<Seq<u8>, u64>>;

    closed spec fn view(&self) -> Seq<Map<Seq<u8>, u64>> {
        Seq::new(self.maps@.len() as nat, |i: int| self.maps@[i]@)
    }
}

impl TermFreqStore {
    /// Every held map is well formed.
    pub closed spec fn wf(&self) -> bool {
        forall|i: int| 0 <= i < self.maps@.len() ==> (#[trigger] self.maps@[i]).wf()
    }

    /// A store with no maps yet.
    pub fn new() -> (r: TermFreqStore)
        ensures
            r.wf(),
            r@ == Seq::<Map<Seq<u8>, u64>>::empty(),
    {
        let r = TermFreqStore { maps: Vec::new() };
        proof {
            assert(r@ =~= Seq::<Map<Seq<u8>, u64>>::empty());
        }
        r
    }

    /// Allocates a new, empty term-frequency map and hands back its handle.
    pub fn create_term_freqs(&mut self) -> (h: usize)
        requires
            old(self).wf(),
        ensures
            final(self).wf(),
            h == old(self)@.len(),
            final(self)@ == old(self)@.push(Map::<Seq<u8>, u64>::empty()),
    {
        let h = self.maps.len();
        self.maps.push(TermFrequencyMap::new());
        proof {
            assert(self@ =~= old(self)@.push(Map::<Seq<u8>, u64>::empty()));
        }
        h
    }

    /// Inserts `value` for `key` in the map behind `handle`. A missing or
    /// stale handle, a missing key, or a key that is not valid UTF-8 leaves
    /// every map exactly as it was: a silent no-op, never a fault.
    pub fn insert_term_freqs(&mut self, handle: Option<usize>, key: Option<&Vec<u8>>, value: u64)
        requires
            old(self).wf(),
        ensures
            final(self).wf(),
            match (handle, key) {
                (Some(h), Some(k)) => if h < old(self)@.len() && valid_utf8(k@) {
                    final(self)@ == old(self)@.update(h as int, old(self)@[h as int].insert(k@, value))
                } else {
                    final(self)@ == old(self)@
                },
                _ => final(self)@ == old(self)@,
            },
    {
        match (handle, key) {
            (Some(h), Some(k)) => {
                if h < self.maps.len() && check_utf8(k.as_slice()) {
                    let owned = copy_bytes(k);
                    let mut m = self.maps.remove(h);
                    m.insert(owned, value);
                    self.maps.insert(h, m);
                    proof {
                        assert(self.maps@ =~= old(self).maps@.update(h as int, self.maps@[h as int]));
                        assert(self@ =~= old(self)@.update(
                            h as int,
                            old(self)@[h as int].insert(k@, value),
                        ));
                        assert forall|i: int| 0 <= i < self.maps@.len() implies (
                        #[trigger] self.maps@[i]).wf() by {
                            if i != h {
                                assert(self.maps@[i] == old(self).maps@[i]);
                            }
                        }
                    }
                } else {
                    proof {
                        assert(self@ =~= old(self)@);
                    }
                }
            },
            _ => {
                proof {
                    assert(self@ =~= old(self)@);
                }
            },
        }
    }

    /// The value stored for `key` in the map behind `handle`. A missing or
    /// stale handle, a missing key, a key that is not valid UTF-8, or a key
    /// never inserted all yield an absent result, never a fault.
    pub fn get_term_freqs(&self, handle: Option<usize>, key: Option<&Vec<u8>>) -> (r: Option<u64>)
        requires
            self.wf(),
        ensures
            match (handle, key) {
                (Some(h), Some(k)) => if h < self@.len() && valid_utf8(k@)
                    && self@[h as int].contains_key(k@) {
                    r == Some(self@[h as int][k@])
                } else {
                    r is None
                },
                _ => r is None,
            },
    {
        match (handle, key) {
            (Some(h), Some(k)) => {
                if h < self.maps.len() && check_utf8(k.as_slice()) {
                    let r = self.maps[h].lookup(k);
                    proof {
                        assert(self@[h as int] == self.maps@[h as int]@);
                    }
                    r
                } else {
                    None
                }
            },
            _ => None,
        }
    }

    /// Removes the map behind `handle`, ending its lifecycle. A missing or
    /// stale handle is a silent no-op.
    pub fn destroy_term_freqs(&mut self, handle: Option<usize>)
        requires
            old(self).wf(),
        ensures
            final(self).wf(),
            match handle {
                Some(h) => if h < old(self)@.len() {
                    final(self)@ == old(self)@.remove(h as int)
                } else {
                    final(self)@ == old(self)@
                },
                None => final(self)@ == old(self)@,
            },
    {
        match handle {
            Some(h) => {
                if h < self.maps.len() {
                    let _ = self.maps.remove(h);
                    proof {
                        assert(self@ =~= old(self)@.remove(h as int));
                        assert forall|i: int| 0 <= i < self.maps@.len() implies (
                        #[trigger] self.maps@[i]).wf() by {
                            if i < h {
                                assert(self.maps@[i] == old(self).maps@[i]);
                            } else {
                                assert(self.maps@[i] == old(self).maps@[i + 1]);
                            }
                        }
                    }
                } else {
                    proof {
                        assert(self@ =~= old(self)@);
                    }
                }
            },
            None => {
                proof {
                    assert(self@ =~= old(self)@);
                }
            },
        }
    }
}

/// Boundary result of a save operation: a single error flag, the fixed
/// shape handed across the foreign edge.
pub struct SaveResult {
    /// True when the save failed.
    pub error: bool,
}

/// Wraps a save outcome into the boundary shape.
pub fn save_result_from(ok: bool) -> (r: SaveResult)
    ensures
        r.error == !ok,
{
    SaveResult { error: !ok }
}

/// Accepts a caller-supplied save path only when it is present and valid
/// UTF-8; an absent or ill-encoded path is a hard failure, never a
/// fallback to a default location.
pub fn save_path_is_valid(path: Option<&Vec<u8>>) -> (r: bool)
    ensures
        r == match path {
            Some(p) => valid_utf8(p@),
            None => false,
        },
{
    match path {
        Some(p) => check_utf8(p.as_slice()),
        None => false,
    }
}

} // verus!
