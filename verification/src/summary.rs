//! Helpers for the console summary of last interactions: dropping
//! ignored persons, and spacing the summary rows at age boundaries.

use vstd::prelude::*;

use crate::config::Config;
use crate::mention::vec_contains_str;
use crate::use_cases::{DaysAgo, LastInteraction, SpecInteraction};

verus! {

/// The interactions whose persons are not ignored, in order.
pub open spec fn spec_not_ignored(
    interactions: Seq<SpecInteraction>,
    ignore: Seq<Seq<char>>,
) -> Seq<SpecInteraction>
    decreases interactions.len(),
{
    if interactions.len() == 0 {
        Seq::empty()
    } else {
        let rest = spec_not_ignored(interactions.drop_last(), ignore);
        if ignore.contains(interactions.last().person) {
            rest
        } else {
            rest.push(interactions.last())
        }
    }
}

/// Drops the interactions of ignored persons.
pub fn discard_ignored(interactions: Vec<LastInteraction>, config: &Config) -> (r: Vec<
    LastInteraction,
>)
    ensures
        r.deep_view() == spec_not_ignored(interactions.deep_view(), config@.ignore),
{
    let mut out: Vec<LastInteraction> = Vec::new();
    let mut i: usize = 0;
    let ghost iv = interactions.deep_view();
    proof {
        assert(iv.take(0) =~= Seq::<SpecInteraction>::empty());
        assert(out.deep_view() =~~= spec_not_ignored(iv.take(0), config@.ignore));
    }
    while i < interactions.len()
        invariant
            i <= interactions@.len(),
            iv == interactions.deep_view(),
            iv.len() == interactions@.len(),
            out.deep_view() == spec_not_ignored(iv.take(i as int), config@.ignore),
        decreases interactions@.len() - i,
    {
        let ghost prev = out.deep_view();
        proof {
            assert(iv.take(i + 1).drop_last() =~= iv.take(i as int));
            assert(iv.take(i + 1).last() == iv[i as int]);
            assert(iv[i as int] == interactions@[i as int]@);
        }
        if !vec_contains_str(&config.ignore, interactions[i].person.as_str()) {
            out.push(interactions[i].duplicate());
            proof {
                assert(out.deep_view() =~~= prev.push(iv[i as int]));
            }
        }
        i = i + 1;
    }
    proof {
        assert(iv.take(interactions@.len() as int) =~= iv);
    }
    out
}

/// Walks a fixed ascending list of age boundaries; each boundary asks
/// for one blank row before the first interaction at least that old.
pub struct Spacer {
    pub boundaries: Vec<DaysAgo>,
    pub next_boundary_offset: Option<usize>,
}

impl Spacer {
    /// Whether the offset, when set, stands within the boundary list.
    pub open spec fn wf(self) -> bool {
        match self.next_boundary_offset {
            Option::Some(o) => o < self.boundaries@.len(),
            Option::None => true,
        }
    }

    /// A spacer at the first of the given boundaries.
    pub fn new(boundaries: Vec<DaysAgo>) -> (r: Spacer)
        ensures
            r.wf(),
            r.boundaries@ == boundaries@,
            r.next_boundary_offset == (if boundaries@.len() == 0 {
                Option::<usize>::None
            } else {
                Option::Some(0usize)
            }),
    {
        let no_boundaries = boundaries.is_empty();
        Spacer {
            boundaries,
            next_boundary_offset: if no_boundaries {
                None
            } else {
                Some(0)
            },
        }
    }

    /// The boundary the walk stands at, if any is left.
    pub fn next_boundary(&self) -> (r: Option<DaysAgo>)
        ensures
            r == (match self.next_boundary_offset {
                Option::Some(o) => (if o < self.boundaries@.len() {
                    Option::Some(self.boundaries@[o as int])
                } else {
                    Option::<DaysAgo>::None
                }),
                Option::None => Option::<DaysAgo>::None,
            }),
    {
        match self.next_boundary_offset {
            Some(offset) => {
                if offset < self.boundaries.len() {
                    Some(self.boundaries[offset])
                } else {
                    None
                }
            },
            None => None,
        }
    }

    /// Steps past the boundary the walk stands at.
    pub fn jump_to_next_boundary(&mut self)
        requires
            old(self).wf(),
        ensures
            final(self).boundaries@ == old(self).boundaries@,
            final(self).next_boundary_offset == (match old(self).next_boundary_offset {
                Option::Some(o) => (if o + 1 < old(self).boundaries@.len() {
                    Option::Some((o + 1) as usize)
                } else {
                    Option::<usize>::None
                }),
                Option::None => Option::<usize>::None,
            }),
            final(self).wf(),
    {
        let blen = self.boundaries.len();
        let last_offset = match self.next_boundary_offset {
            Some(offset) => offset,
            None => {
                self.next_boundary_offset = None;
                return;
            },
        };
        let new_offset = last_offset + 1;
        if new_offset < blen {
            self.next_boundary_offset = Some(new_offset);
        } else {
            self.next_boundary_offset = None;
        }
    }

    /// Whether a blank row belongs before an interaction `current` days
    /// old: yes exactly when the walk stands at a boundary that
    /// `current` has reached, and then the walk steps past it.
    pub fn should_show_space(&mut self, current: DaysAgo) -> (r: bool)
        requires
            old(self).wf(),
        ensures
            final(self).wf(),
            final(self).boundaries@ == old(self).boundaries@,
            r == (match old(self).next_boundary_offset {
                Option::Some(o) => current >= old(self).boundaries@[o as int],
                Option::None => false,
            }),
            (match old(self).next_boundary_offset {
                Option::Some(o) => (if current >= old(self).boundaries@[o as int] {
                    final(self).next_boundary_offset == (if o + 1 < old(
                        self,
                    ).boundaries@.len() {
                        Option::Some((o + 1) as usize)
                    } else {
                        Option::<usize>::None
                    })
                } else {
                    final(self).next_boundary_offset == old(self).next_boundary_offset
                }),
                Option::None => final(self).next_boundary_offset is None,
            }),
    {
        let next = match self.next_boundary() {
            None => {
                return false;
            },
            Some(boundary) => boundary,
        };
        let show_space = current >= next;
        if show_space {
            self.jump_to_next_boundary();
        }
        show_space
    }
}

} // verus!
