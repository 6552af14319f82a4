//! Members of the group: an identifier and a private channel to reach them.
use vstd::prelude::*;
use vstd::std_specs::cmp::PartialEqSpecImpl;
use vstd::string::*;

verus! {

/// A member of the multicast group. `send` is the member's private channel
/// (for instance a closure over a TLS connection); the key server never looks
/// inside it.
pub struct User<S> {
    pub user_id: String,
    pub send: S,
}

impl<S> PartialEq for User<S> {
    /// Two members are the same when their identifiers are.
    fn eq(&self, other: &Self) -> (r: bool) {
        self.user_id == other.user_id
    }
}

impl<S> Eq for User<S> {

}

impl<S> PartialEqSpecImpl for User<S> {
    open spec fn obeys_eq_spec() -> bool {
        true
    }

    open spec fn eq_spec(&self, other: &Self) -> bool {
        self.user_id@ == other.user_id@
    }
}

impl<S> User<S> {
    /// Debug form of a member: `User [<id>]`.
    pub fn describe(&self) -> (r: String)
        ensures
            r@ == "User ["@ + self.user_id@ + "]"@,
    {
        let mut s = String::from_str("User [");
        s.append(self.user_id.as_str());
        s.append("]");
        s
    }
}

} // verus!
