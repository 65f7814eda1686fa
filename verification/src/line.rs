use vstd::prelude::*;
use crate::ast::Predicate;

verus! {

/// A route as a stack of terms.
#[derive(Debug)]
pub struct Route {
    pub stack: Vec<RouteTerm>,
}

impl Route {
    /// A route with no terms.
    pub fn new() -> (r: Route)
        ensures
            r.stack@.len() == 0,
    {
        Route { stack: Vec::new() }
    }
}

/// A term of a route.
#[derive(Debug)]
pub enum RouteTerm {
    LogicalOperator(RouteLogicalOperators),
    Predicate(Predicate),
}

/// A logical operator of a route.
#[derive(Debug, Clone, Copy, PartialEq, Eq, Structural)]
pub enum RouteLogicalOperators {
    And,
    Or,
    Not,
}

} // verus!
