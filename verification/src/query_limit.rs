//! The foreground query limit (`max-query-limit`): at most that many
//! foreground queries are handled at once, and a query beyond it is
//! refused. Background queries are not counted; a limit of 0 turns the
//! limit off.
use vstd::prelude::*;

verus! {

/// Whether a query is handled: background queries and queries without an
/// active limit always are; a foreground query is while fewer than the
/// limit are in flight.
pub open spec fn spec_admits(in_flight: usize, limit: Option<usize>, background: bool) -> bool {
    background || limit is None || limit == Some(0usize) || in_flight < limit->0
}

/// Whether a query is handled (see [`spec_admits`]).
pub fn admits(in_flight: usize, limit: Option<usize>, background: bool) -> (r: bool)
    ensures
        r == spec_admits(in_flight, limit, background),
{
    if background {
        return true;
    }
    match limit {
        None => true,
        Some(l) => l == 0 || in_flight < l,
    }
}

/// What happened to a query at the limit.
#[derive(Clone, Copy, Debug, PartialEq, Eq, Structural)]
pub enum Admission {
    /// The query is refused (answered REFUSED).
    Refused,
    /// The query is handled; `counted` when it holds one of the limited
    /// places, to be given back when it is done.
    Admitted { counted: bool },
}

/// The count of foreground queries in flight under a limit.
#[derive(Debug)]
pub struct QueryLimit {
    limit: Option<usize>,
    in_flight: usize,
}

impl QueryLimit {
    /// The limit, `None` when there is none (no limit, or 0).
    pub closed spec fn spec_limit(&self) -> Option<usize> {
        self.limit
    }

    pub closed spec fn spec_in_flight(&self) -> usize {
        self.in_flight
    }

    #[verifier::type_invariant]
    spec fn within_limit(&self) -> bool {
        &&& self.limit matches Some(l) ==> l > 0 && self.in_flight <= l
        &&& self.limit is None ==> self.in_flight == 0
    }

    /// A limit of `max_query_limit` places; none for `None` or 0.
    pub fn new(max_query_limit: Option<usize>) -> (r: QueryLimit)
        ensures
            r.spec_limit() == (match max_query_limit {
                Some(l) => if l > 0 { Some(l) } else { None },
                None => None,
            }),
            r.spec_in_flight() == 0,
    {
        let limit = match max_query_limit {
            Some(l) => if l > 0 { Some(l) } else { None },
            None => None,
        };
        QueryLimit { limit, in_flight: 0 }
    }

    pub fn in_flight(&self) -> (r: usize)
        ensures
            r == self.spec_in_flight(),
    {
        self.in_flight
    }

    /// Lets a query in or refuses it: a background query, or any query
    /// without a limit, is let in uncounted; a foreground query takes a
    /// place while one is free, and is refused otherwise.
    pub fn acquire(&mut self, background: bool) -> (r: Admission)
        ensures
            final(self).spec_limit() == old(self).spec_limit(),
            r is Refused <==> !spec_admits(old(self).spec_in_flight(), old(self).spec_limit(), background),
            r == (Admission::Admitted { counted: true }) <==> (!background && old(self).spec_limit() is Some
                && spec_admits(old(self).spec_in_flight(), old(self).spec_limit(), background)),
            final(self).spec_in_flight() == if r == (Admission::Admitted { counted: true }) {
                old(self).spec_in_flight() + 1
            } else {
                old(self).spec_in_flight() as int
            },
            final(self).spec_limit() matches Some(l) ==> final(self).spec_in_flight() <= l,
    {
        proof {
            use_type_invariant(&*self);
        }
        if background {
            return Admission::Admitted { counted: false };
        }
        match self.limit {
            None => Admission::Admitted { counted: false },
            Some(l) => {
                if self.in_flight < l {
                    self.in_flight = self.in_flight + 1;
                    Admission::Admitted { counted: true }
                } else {
                    Admission::Refused
                }
            },
        }
    }

    /// Gives back the place of a query that is done.
    pub fn release(&mut self, admission: Admission)
        ensures
            final(self).spec_limit() == old(self).spec_limit(),
            final(self).spec_in_flight() == if admission == (Admission::Admitted { counted: true })
                && old(self).spec_in_flight() > 0 {
                old(self).spec_in_flight() - 1
            } else {
                old(self).spec_in_flight() as int
            },
    {
        proof {
            use_type_invariant(&*self);
        }
        if admission == (Admission::Admitted { counted: true }) && self.in_flight > 0 {
            self.in_flight = self.in_flight - 1;
        }
    }
}

} // verus!
