use vstd::prelude::*;

use std::collections::HashSet;

verus! {

/// Turns parsed types into analyzed types for a driver, given the names that
/// are type variables in the current scope.
pub struct TypeProcessor<'a, D> {
    driver: D,
    type_vars: &'a HashSet<&'a String>,
}

impl<'a, D> TypeProcessor<'a, D> {
    /// The driver that resolves names and holds the definitions.
    pub closed spec fn spec_driver(&self) -> D {
        self.driver
    }

    /// The type variables in scope.
    pub closed spec fn spec_type_vars(&self) -> &'a HashSet<&'a String> {
        self.type_vars
    }

    pub fn new(driver: D, type_vars: &'a HashSet<&'a String>) -> (r: Self)
        ensures
            r.spec_driver() == driver,
            r.spec_type_vars() == type_vars,
    {
        TypeProcessor { driver, type_vars }
    }

    pub fn driver(&self) -> (r: &D)
        ensures
            *r == self.spec_driver(),
    {
        &self.driver
    }

    pub fn type_vars(&self) -> (r: &'a HashSet<&'a String>)
        ensures
            r == self.spec_type_vars(),
    {
        self.type_vars
    }
}

} // verus!
