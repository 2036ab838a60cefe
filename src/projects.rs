//! Club projects: their state, and which members an update adds or removes.
use vstd::prelude::*;
use vstd::string::StringExecFns;
use crate::members::{ClubMemberResponse, opt_view};

verus! {

/// The state of a project.
#[derive(Debug, Clone, Copy, PartialEq, Eq, Structural)]
pub enum ProjectState {
    /// Not started yet.
    NotStarted,
    /// Progressing normally.
    InProgress,
    /// Stopped, for some reason.
    Idle,
    /// Looking for new ideas.
    LookingForIdeas,
    /// Finished.
    Finished,
    /// Cancelled.
    Cancelled,
}

/// A name that is no project state.
#[derive(Debug, Clone, Copy, PartialEq, Eq, Structural)]
pub struct UnknownProjectState;

/// The state a name stands for, if any.
pub open spec fn project_state_of_name(s: Seq<char>) -> Option<ProjectState> {
    if s == "NotStarted"@ {
        Some(ProjectState::NotStarted)
    } else if s == "InProgress"@ {
        Some(ProjectState::InProgress)
    } else if s == "Idle"@ {
        Some(ProjectState::Idle)
    } else if s == "LookingForIdeas"@ {
        Some(ProjectState::LookingForIdeas)
    } else if s == "Finished"@ {
        Some(ProjectState::Finished)
    } else if s == "Cancelled"@ {
        Some(ProjectState::Cancelled)
    } else {
        None
    }
}

impl ProjectState {
    /// The state named `s`; an error for any other name.
    pub fn from_str(s: &str) -> (r: Result<ProjectState, UnknownProjectState>)
        ensures
            r is Ok <==> project_state_of_name(s@) is Some,
            r is Ok ==> project_state_of_name(s@) == Some(r->Ok_0),
    {
        let s = String::from_str(s);
        if s == String::from_str("NotStarted") {
            Ok(ProjectState::NotStarted)
        } else if s == String::from_str("InProgress") {
            Ok(ProjectState::InProgress)
        } else if s == String::from_str("Idle") {
            Ok(ProjectState::Idle)
        } else if s == String::from_str("LookingForIdeas") {
            Ok(ProjectState::LookingForIdeas)
        } else if s == String::from_str("Finished") {
            Ok(ProjectState::Finished)
        } else if s == String::from_str("Cancelled") {
            Ok(ProjectState::Cancelled)
        } else {
            Err(UnknownProjectState)
        }
    }

    /// The state named by `value`; an error for any other name.
    pub fn try_from(value: String) -> (r: Result<ProjectState, UnknownProjectState>)
        ensures
            r is Ok <==> project_state_of_name(value@) is Some,
            r is Ok ==> project_state_of_name(value@) == Some(r->Ok_0),
    {
        ProjectState::from_str(value.as_str())
    }
}

/// A project with the members involved in it.
pub struct Project {
    /// Unique identifier.
    pub uuid: String,
    /// The members involved.
    pub involved: Vec<ClubMemberResponse>,
    /// Name.
    pub name: String,
    /// Description.
    pub description: String,
    /// State.
    pub state: ProjectState,
}

/// A stored project.
pub struct ProjectModel {
    /// Unique identifier.
    pub uuid: String,
    /// Name.
    pub name: String,
    /// Description.
    pub description: Option<String>,
    /// State.
    pub state: ProjectState,
    /// The members involved.
    pub involved: Vec<ClubMemberResponse>,
    /// Creation time, in seconds since the Unix epoch.
    pub created_at: i64,
    /// Time of the last change, in seconds since the Unix epoch.
    pub updated_at: i64,
}

/// What is needed to create a project: a name, and optionally a description
/// and the identifiers of the members involved.
pub struct CreateProjectSchema {
    /// Name.
    pub name: String,
    /// Description.
    pub description: Option<String>,
    /// Identifiers of the members involved.
    pub involved: Option<Vec<u128>>,
}

/// Members to add to and remove from a project.
pub struct UpdateInvolvedSchema {
    /// Identifiers of the members to add.
    pub add: Option<Vec<u128>>,
    /// Identifiers of the members to remove.
    pub remove: Option<Vec<u128>>,
}

impl UpdateInvolvedSchema {
    /// No member added, none removed.
    pub fn new() -> (r: UpdateInvolvedSchema)
        ensures
            r.add is None,
            r.remove is None,
    {
        UpdateInvolvedSchema { add: None, remove: None }
    }
}

/// A change to a project: each given field replaces the stored one.
pub struct UpdateProjectSchema {
    /// New name.
    pub name: Option<String>,
    /// New description.
    pub description: Option<String>,
    /// Changes to the members involved.
    pub involved: Option<UpdateInvolvedSchema>,
    /// New state.
    pub state: Option<ProjectState>,
}

impl ProjectModel {
    /// The project after `data` is applied: a given name, description or
    /// state replaces the stored one; an absent description keeps the stored
    /// one, or becomes empty when there was none. Identifier, members and
    /// times are kept.
    pub fn apply_update(self, data: &UpdateProjectSchema) -> (r: ProjectModel)
        ensures
            r.uuid@ == self.uuid@,
            r.name@ == (if data.name is Some { data.name->0@ } else { self.name@ }),
            opt_view(r.description) == Some(
                if data.description is Some {
                    data.description->0@
                } else if self.description is Some {
                    self.description->0@
                } else {
                    Seq::<char>::empty()
                },
            ),
            r.state == (if data.state is Some { data.state->0 } else { self.state }),
            r.involved == self.involved,
            r.created_at == self.created_at,
            r.updated_at == self.updated_at,
    {
        let name = match &data.name {
            Some(n) => n.clone(),
            None => self.name.clone(),
        };
        let description = match &data.description {
            Some(d) => d.clone(),
            None => match &self.description {
                Some(d) => d.clone(),
                None => String::new(),
            },
        };
        let state = match data.state {
            Some(s) => s,
            None => self.state,
        };
        ProjectModel {
            uuid: self.uuid,
            name,
            description: Some(description),
            state,
            involved: self.involved,
            created_at: self.created_at,
            updated_at: self.updated_at,
        }
    }
}

/// Every element is smaller than the next: sorted, without repeats.
pub open spec fn strictly_ascending(s: Seq<u128>) -> bool {
    forall|i: int, j: int| 0 <= i < j < s.len() ==> s[i] < s[j]
}

/// Relies on `slice::sort_unstable`: the same elements, in ascending order.
#[verifier::external_body]
fn sort_ids(v: &mut Vec<u128>)
    ensures
        final(v)@.to_multiset() == old(v)@.to_multiset(),
        forall|i: int, j: int| 0 <= i < j < final(v)@.len() ==> final(v)@[i] <= final(v)@[j],
{
    v.sort_unstable()
}

/// The distinct identifiers among `ids`, ascending, leaving out those in `keep_out`.
fn distinct_sorted_except(ids: Vec<u128>, keep_out: &Vec<u128>) -> (r: Vec<u128>)
    ensures
        strictly_ascending(r@),
        forall|x: u128| r@.contains(x) <==> (ids@.contains(x) && !keep_out@.contains(x)),
{
    let mut v = ids;
    sort_ids(&mut v);
    proof {
        assert forall|x: u128| v@.contains(x) <==> ids@.contains(x) by {
            vstd::seq_lib::to_multiset_contains(v@, x);
            vstd::seq_lib::to_multiset_contains(ids@, x);
        }
    }
    let mut out: Vec<u128> = Vec::new();
    let mut i: usize = 0;
    while i < v.len()
        invariant
            i <= v@.len(),
            forall|a: int, b: int| 0 <= a < b < v@.len() ==> v@[a] <= v@[b],
            strictly_ascending(out@),
            out@.len() > 0 ==> i > 0 && out@.last() <= v@[i - 1],
            forall|x: u128|
                out@.contains(x) <==> (v@.subrange(0, i as int).contains(x) && !keep_out@.contains(
                    x,
                )),
        decreases v@.len() - i,
    {
        let x = v[i];
        let mut k: usize = 0;
        while k < keep_out.len() && keep_out[k] != x
            invariant
                k <= keep_out@.len(),
                forall|m: int| 0 <= m < k ==> keep_out@[m] != x,
            decreases keep_out@.len() - k,
        {
            k = k + 1;
        }
        let ghost before = out@;
        let fresh = out.len() == 0 || out[out.len() - 1] != x;
        if fresh && k == keep_out.len() {
            out.push(x);
        }
        proof {
            let sub = v@.subrange(0, i as int);
            assert(v@.subrange(0, i + 1) =~= sub.push(x));
            if before.len() > 0 {
                assert(before.last() <= x);
            }
            assert forall|x2: u128| #[trigger] out@.contains(x2) <==> (v@.subrange(0, i + 1).contains(x2)
                && !keep_out@.contains(x2)) by {
                vstd::seq_lib::lemma_seq_contains_after_push(sub, x, x2);
                vstd::seq_lib::lemma_seq_contains_after_push(before, x, x2);
                if k < keep_out.len() {
                    assert(keep_out@[k as int] == x);
                }
                if !fresh && x2 == x {
                    assert(before.contains(before.last()));
                }
            }
            assert forall|a: int, b: int| 0 <= a < b < out@.len() implies out@[a] < out@[b] by {
                if b == before.len() {
                    assert(before[a] <= before.last());
                }
            }
        }
        i = i + 1;
    }
    assert(v@.subrange(0, i as int) =~= v@);
    out
}

/// The members an update adds to a project: the requested identifiers, each
/// once and ascending, without those already involved.
pub fn involvement_additions(add: Vec<u128>, previous: &Vec<u128>) -> (r: Vec<u128>)
    ensures
        strictly_ascending(r@),
        forall|x: u128| r@.contains(x) <==> (add@.contains(x) && !previous@.contains(x)),
{
    distinct_sorted_except(add, previous)
}

/// The members an update removes from a project: the requested identifiers,
/// each once and ascending.
pub fn involvement_removals(remove: Vec<u128>) -> (r: Vec<u128>)
    ensures
        strictly_ascending(r@),
        forall|x: u128| r@.contains(x) <==> remove@.contains(x),
{
    let none: Vec<u128> = Vec::new();
    distinct_sorted_except(remove, &none)
}

} // verus!
