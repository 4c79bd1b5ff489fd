//! Logging out other devices.

use vstd::prelude::*;
use vstd::string::*;

use crate::text::{embedded, same};

verus! {

/// Whether an id is among some ids.
pub open spec fn is_listed(ids: Seq<String>, id: Seq<char>) -> bool {
    exists|i: int| 0 <= i < ids.len() && (#[trigger] ids[i])@ == id
}

/// Whether an id is among some ids.
fn lists(ids: &Vec<String>, id: &str) -> (res: bool)
    ensures
        res == is_listed(ids@, id@),
{
    let mut i: usize = 0;
    while i < ids.len()
        invariant
            i <= ids@.len(),
            forall|j: int| 0 <= j < i ==> (#[trigger] ids@[j])@ != id@,
        decreases ids@.len() - i,
    {
        if same(ids[i].as_str(), id) {
            return true;
        }
        i = i + 1;
    }
    false
}

/// The devices to log out: those that were asked for, all of which have to be devices of the user.
/// The error names the first that is not.
pub fn device_ids(available: &Vec<String>, ids: &Vec<String>) -> (res: Result<Vec<String>, String>)
    ensures
        res is Ok <==> forall|i: int| 0 <= i < ids@.len() ==> is_listed(available@, (#[trigger] ids@[i])@),
        res matches Ok(found) ==> {
            &&& found@.len() == ids@.len()
            &&& forall|i: int| 0 <= i < ids@.len() ==> (#[trigger] found@[i])@ == ids@[i]@
        },
        res matches Err(e) ==> exists|i: int|
            {
                &&& 0 <= i < ids@.len()
                &&& !is_listed(available@, (#[trigger] ids@[i])@)
                &&& e@ == "'"@ + ids@[i]@ + "' is not the id one of your devices."@
                &&& forall|j: int| 0 <= j < i ==> is_listed(available@, (#[trigger] ids@[j])@)
            },
{
    let mut found: Vec<String> = Vec::new();
    let mut i: usize = 0;
    while i < ids.len()
        invariant
            i <= ids@.len(),
            found@.len() == i,
            forall|j: int| 0 <= j < i ==> (#[trigger] found@[j])@ == ids@[j]@,
            forall|j: int| 0 <= j < i ==> is_listed(available@, (#[trigger] ids@[j])@),
        decreases ids@.len() - i,
    {
        if !lists(available, ids[i].as_str()) {
            return Err(
                embedded("'", ids[i].as_str(), "' is not the id one of your devices."),
            );
        }
        found.push(ids[i].as_str().to_owned());
        i = i + 1;
    }
    Ok(found)
}

/// What came back from an attempt to delete the devices without a password.
#[derive(Clone, Copy, Debug, PartialEq, Eq, Structural)]
pub enum DeleteReply {
    /// They are deleted.
    Deleted,
    /// The server asks for further authentication.
    NeedsAuthentication,
    /// Another error.
    Failed,
}

/// What to do next.
#[derive(Clone, Copy, Debug, PartialEq, Eq, Structural)]
pub enum DeleteStep {
    /// Give up: the server must ask for a password.
    Panic,
    /// Ask the user for the password.
    AskPassword,
    /// Delete the devices, with the password.
    DeleteWithPassword,
    /// Nothing more.
    Stop,
}

/// What to do after the attempt without a password.
pub fn after_delete(reply: DeleteReply) -> (res: DeleteStep)
    ensures
        res == (match reply {
            DeleteReply::Deleted => DeleteStep::Panic,
            DeleteReply::NeedsAuthentication => DeleteStep::AskPassword,
            DeleteReply::Failed => DeleteStep::Stop,
        }),
{
    match reply {
        DeleteReply::Deleted => DeleteStep::Panic,
        DeleteReply::NeedsAuthentication => DeleteStep::AskPassword,
        DeleteReply::Failed => DeleteStep::Stop,
    }
}

/// What to do with the password: without one, nothing.
pub fn after_password(password: &str) -> (res: DeleteStep)
    ensures
        res == (if password@.len() == 0 {
            DeleteStep::Stop
        } else {
            DeleteStep::DeleteWithPassword
        }),
{
    if same(password, "") {
        proof {
            reveal_strlit("");
        }
        DeleteStep::Stop
    } else {
        proof {
            reveal_strlit("");
            if password@.len() == 0 {
                assert(password@ =~= ""@);
            }
        }
        DeleteStep::DeleteWithPassword
    }
}

} // verus!
