//! The minimal starter server: a health check and a user sign-up that
//! answers with a fixed id.
use vstd::prelude::*;
use crate::text::string_from;

verus! {

/// What the starter server answers a sign-up with.
pub struct UserResponse {
    pub id: u64,
    pub username: String,
    pub status: String,
}

/// The starter server's health check.
pub fn health_check() -> (r: &'static str)
    ensures
        r@ == "OK"@,
{
    "OK"
}

/// A signed-up user: always id 101 and active.
pub fn create_user(username: String) -> (r: UserResponse)
    ensures
        r.id == 101,
        r.username == username,
        r.status@ == "active"@,
{
    UserResponse { id: 101, username, status: string_from("active") }
}

} // verus!
