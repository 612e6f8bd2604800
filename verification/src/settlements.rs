//! Rules of settlements, the payments between members that settle debts.
use vstd::prelude::*;
use crate::error::{AppError, is_bad_request, is_forbidden};
use crate::text::{same_text, string_from};

verus! {

/// A settlement is a payment between two different people.
pub fn check_settlement_parties(from_user: u128, to_user: u128) -> (r: Result<(), AppError>)
    ensures
        from_user != to_user ==> r is Ok,
        from_user == to_user ==> is_bad_request(
            r,
            "el pago tiene que ser entre dos personas distintas"@,
        ),
{
    if from_user == to_user {
        return Err(
            AppError::BadRequest(string_from("el pago tiene que ser entre dos personas distintas")),
        );
    }
    Ok(())
}

/// Both people of a settlement have to be members of the group; whatever
/// kept the membership from being confirmed is answered the same way.
pub fn check_settlement_party_member(confirmed: bool) -> (r: Result<(), AppError>)
    ensures
        confirmed ==> r is Ok,
        !confirmed ==> is_bad_request(r, "ambas personas tienen que ser miembros del grupo"@),
{
    if !confirmed {
        return Err(
            AppError::BadRequest(string_from("ambas personas tienen que ser miembros del grupo")),
        );
    }
    Ok(())
}

/// Whoever recorded a settlement, paid it or received it may delete it, and
/// so may the group's administrator. `group_role` is the user's role in the
/// settlement's group, when it has one.
pub fn may_delete_settlement(
    created_by: u128,
    from_user: u128,
    to_user: u128,
    user_id: u128,
    group_role: Option<&str>,
) -> (r: Result<(), AppError>)
    ensures
        (created_by == user_id || from_user == user_id || to_user == user_id || (group_role matches Some(
            g,
        ) && g@ == "owner"@)) ==> r is Ok,
        !(created_by == user_id || from_user == user_id || to_user == user_id || (group_role matches Some(
            g,
        ) && g@ == "owner"@)) ==> is_forbidden(
            r,
            "sólo quien participó del pago o el admin del grupo pueden borrarlo"@,
        ),
{
    let involved = created_by == user_id || from_user == user_id || to_user == user_id;
    let is_owner = match group_role {
        Some(g) => same_text(g, "owner"),
        None => false,
    };
    if !involved && !is_owner {
        return Err(
            AppError::Forbidden(
                string_from("sólo quien participó del pago o el admin del grupo pueden borrarlo"),
            ),
        );
    }
    Ok(())
}

} // verus!
