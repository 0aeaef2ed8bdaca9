//! Siphons and traps of a system's net.

use vstd::prelude::*;
use crate::net::{Net, Place};
use crate::siphon_trap::{Siphon, Trap};
use crate::system::PetriNet;

verus! {

/// Whether every place of the net in `d` is listed in `places`.
pub open spec fn net_part_within(net: Net, d: Set<Place>, places: Seq<Place>) -> bool {
    forall|x: Place| d.contains(x) && #[trigger] net.place_set().contains(x) ==> places.contains(x)
}

impl<'a> PetriNet<'a> {
    /// The greatest siphon (`siphon`) or trap (`!siphon`) whose places all lie
    /// in `places`.
    fn greatest_within(&self, siphon: bool, places: &[Place]) -> (r: Vec<Place>)
        requires
            self.wf(),
        ensures
            r@.no_duplicates(),
            forall|x: Place| #[trigger] r@.contains(x) ==> places@.contains(x) && self.structure().place_set().contains(x),
            self.structure().closed_set(siphon, r@.to_set()),
            forall|d: Set<Place>| #[trigger] self.structure().closed_set(siphon, d) && net_part_within(self.structure(), d, places@)
                ==> net_part_within(self.structure(), d, r@),
    {
        let net = self.net;
        let mask = net.mask_of(places);
        let ghost m0 = mask@;
        let kept = net.prune(siphon, mask);
        let r = net.places_of_mask(&kept);
        proof {
            net.lemma_mask_set(kept@);
            assert forall|x: Place| #[trigger] r@.contains(x) implies places@.contains(x) && net.place_set().contains(x) by {
                assert(r@.to_set().contains(x));
                let i = choose|i: int| 0 <= i < net.np() && kept@[i] && net.place_seq()[i] == x;
                assert(m0[i]);
                assert(net.place_seq().contains(x));
            }
            assert forall|d: Set<Place>| #[trigger] net.closed_set(siphon, d) && net_part_within(*net, d, places@)
                implies net_part_within(*net, d, r@) by {
                assert forall|p: int| #[trigger] net.holds_place(d, p) implies m0[p] by {
                    assert(net.place_set().contains(net.place_seq()[p]));
                }
                assert(net.within(d, m0));
                assert forall|x: Place| d.contains(x) && #[trigger] net.place_set().contains(x) implies r@.contains(x) by {
                    let p = choose|p: int| 0 <= p < net.place_seq().len() && net.place_seq()[p] == x;
                    assert(net.holds_place(d, p));
                    assert(net.holds_place(net.mask_set(kept@), p));
                    assert(r@.to_set().contains(x));
                }
            }
        }
        r
    }

    /// Computes the maximal [`Siphon`] contained in a given set of places: the
    /// union of all siphons whose places of the net are all listed in `places`.
    pub fn maximal_siphon_in(&self, places: &[Place]) -> (r: Siphon)
        requires
            self.wf(),
        ensures
            r@.no_duplicates(),
            forall|x: Place| #[trigger] r@.contains(x) ==> places@.contains(x) && self.structure().place_set().contains(x),
            self.structure().is_siphon(r@.to_set()),
            forall|d: Set<Place>| #[trigger] self.structure().is_siphon(d) && net_part_within(self.structure(), d, places@)
                ==> net_part_within(self.structure(), d, r@),
    {
        let r = self.greatest_within(true, places);
        proof {
            assert forall|d: Set<Place>| #[trigger] self.structure().is_siphon(d) && net_part_within(self.structure(), d, places@)
                implies net_part_within(self.structure(), d, r@) by {
                assert(self.structure().closed_set(true, d));
            }
        }
        r
    }

    /// Computes the maximal [`Trap`] contained in a given set of places: the
    /// union of all traps whose places of the net are all listed in `places`.
    pub fn maximal_trap_in(&self, places: &[Place]) -> (r: Trap)
        requires
            self.wf(),
        ensures
            r@.no_duplicates(),
            forall|x: Place| #[trigger] r@.contains(x) ==> places@.contains(x) && self.structure().place_set().contains(x),
            self.structure().is_trap(r@.to_set()),
            forall|d: Set<Place>| #[trigger] self.structure().is_trap(d) && net_part_within(self.structure(), d, places@)
                ==> net_part_within(self.structure(), d, r@),
    {
        let r = self.greatest_within(false, places);
        proof {
            assert forall|d: Set<Place>| #[trigger] self.structure().is_trap(d) && net_part_within(self.structure(), d, places@)
                implies net_part_within(self.structure(), d, r@) by {
                assert(self.structure().closed_set(false, d));
            }
        }
        r
    }
}

} // verus!
