//! Club members: their state, their stored record, and the shapes in which
//! they are created, updated and returned.
use vstd::prelude::*;
use vstd::string::StringExecFns;

verus! {

/// The state of a club member.
#[derive(Debug, Clone, Copy, PartialEq, Eq, Structural)]
pub enum MemberState {
    /// An active member.
    Active,
    /// Inactive, but still a member.
    Unactive,
    /// A former member who graduated.
    Graduated,
    /// A former member, for any other reason.
    NoLongerAMember,
}

/// The state a stored name stands for; an unknown name stands for `Unactive`.
pub open spec fn state_of_name(s: Seq<char>) -> MemberState {
    if s == "Active"@ {
        MemberState::Active
    } else if s == "Unactive"@ {
        MemberState::Unactive
    } else if s == "Graduated"@ {
        MemberState::Graduated
    } else if s == "NoLongerAMember"@ {
        MemberState::NoLongerAMember
    } else {
        MemberState::Unactive
    }
}

/// The name under which a state is stored.
pub open spec fn name_of_state(m: MemberState) -> Seq<char> {
    match m {
        MemberState::Active => "Active"@,
        MemberState::Unactive => "Unactive"@,
        MemberState::Graduated => "Graduated"@,
        MemberState::NoLongerAMember => "NoLongerAMember"@,
    }
}

impl MemberState {
    /// The state stored under `input`; `Unactive` for a name that is none of the four.
    pub fn from_name(input: &String) -> (r: MemberState)
        ensures
            r == state_of_name(input@),
    {
        if *input == String::from_str("Active") {
            MemberState::Active
        } else if *input == String::from_str("Unactive") {
            MemberState::Unactive
        } else if *input == String::from_str("Graduated") {
            MemberState::Graduated
        } else if *input == String::from_str("NoLongerAMember") {
            MemberState::NoLongerAMember
        } else {
            MemberState::Unactive
        }
    }

    /// The name under which this state is stored.
    pub fn name(&self) -> (r: String)
        ensures
            r@ == name_of_state(*self),
    {
        match self {
            MemberState::Active => String::from_str("Active"),
            MemberState::Unactive => String::from_str("Unactive"),
            MemberState::Graduated => String::from_str("Graduated"),
            MemberState::NoLongerAMember => String::from_str("NoLongerAMember"),
        }
    }
}

impl From<String> for MemberState {
    fn from(input: String) -> (r: MemberState)
        ensures
            r == state_of_name(input@),
    {
        MemberState::from_name(&input)
    }
}

impl vstd::std_specs::convert::FromSpecImpl<String> for MemberState {
    open spec fn obeys_from_spec() -> bool {
        true
    }

    open spec fn from_spec(v: String) -> MemberState {
        state_of_name(v@)
    }
}

/// Reading back the stored name of a state gives the state.
pub proof fn lemma_state_name_round_trip(m: MemberState)
    ensures
        state_of_name(name_of_state(m)) == m,
{
    reveal_strlit("Active");
    reveal_strlit("Unactive");
    reveal_strlit("Graduated");
    reveal_strlit("NoLongerAMember");
    assert("Active"@.len() == 6);
    assert("Unactive"@.len() == 8);
    assert("Graduated"@.len() == 9);
    assert("NoLongerAMember"@.len() == 15);
}

/// A stored club member.
pub struct ClubMemberModel {
    /// Unique identifier.
    pub uuid: String,
    /// Name.
    pub name: String,
    /// Birthday, when shared.
    pub birthday: Option<String>,
    /// Stored name of the member's state.
    pub state: String,
    /// Email, when shared.
    pub email: Option<String>,
    /// GitHub user, when shared.
    pub github: Option<String>,
    /// Creation time, in seconds since the Unix epoch.
    pub created_at: i64,
    /// Time of the last change, in seconds since the Unix epoch.
    pub updated_at: i64,
}

/// What is needed to add a member: a name, and optional details.
pub struct CreateMemberSchema {
    /// Name.
    pub name: String,
    /// Birthday.
    pub birthday: Option<String>,
    /// Email.
    pub email: Option<String>,
    /// GitHub user.
    pub github: Option<String>,
}

/// A change to a member: each given field replaces the stored one, each
/// absent field keeps it.
pub struct UpdateMemberSchema {
    /// New name.
    pub name: Option<String>,
    /// New birthday.
    pub birthday: Option<String>,
    /// New email.
    pub email: Option<String>,
    /// New GitHub user.
    pub github: Option<String>,
    /// New stored state name.
    pub state: Option<String>,
}

/// The view of an optional string.
pub open spec fn opt_view(o: Option<String>) -> Option<Seq<char>> {
    match o {
        Some(s) => Some(s@),
        None => None,
    }
}

/// The given value when there is one, else the stored one.
pub open spec fn or_keep(given: Option<String>, stored: Option<String>) -> Option<Seq<char>> {
    if given is Some {
        opt_view(given)
    } else {
        opt_view(stored)
    }
}

fn clone_opt(o: &Option<String>) -> (r: Option<String>)
    ensures
        opt_view(r) == opt_view(*o),
{
    match o {
        Some(s) => Some(s.clone()),
        None => None,
    }
}

fn pick(given: &Option<String>, stored: &Option<String>) -> (r: Option<String>)
    ensures
        opt_view(r) == or_keep(*given, *stored),
{
    if given.is_some() {
        clone_opt(given)
    } else {
        clone_opt(stored)
    }
}

impl ClubMemberModel {
    /// The member after `new_data` is applied: given fields replace the
    /// stored ones, absent fields keep them; identifier and times are kept.
    pub fn apply_update(&self, new_data: &UpdateMemberSchema) -> (r: ClubMemberModel)
        ensures
            r.uuid@ == self.uuid@,
            r.name@ == (if new_data.name is Some { new_data.name->0@ } else { self.name@ }),
            opt_view(r.birthday) == or_keep(new_data.birthday, self.birthday),
            opt_view(r.email) == or_keep(new_data.email, self.email),
            opt_view(r.github) == or_keep(new_data.github, self.github),
            r.state@ == (if new_data.state is Some { new_data.state->0@ } else { self.state@ }),
            r.created_at == self.created_at,
            r.updated_at == self.updated_at,
    {
        let name = match &new_data.name {
            Some(n) => n.clone(),
            None => self.name.clone(),
        };
        let state = match &new_data.state {
            Some(s) => s.clone(),
            None => self.state.clone(),
        };
        ClubMemberModel {
            uuid: self.uuid.clone(),
            name,
            birthday: pick(&new_data.birthday, &self.birthday),
            state,
            email: pick(&new_data.email, &self.email),
            github: pick(&new_data.github, &self.github),
            created_at: self.created_at,
            updated_at: self.updated_at,
        }
    }
}

/// A member as returned to clients: the stored record without its times.
pub struct ClubMemberResponse {
    /// Unique identifier.
    pub uuid: String,
    /// Name.
    pub name: String,
    /// Birthday, when shared.
    pub birthday: Option<String>,
    /// Stored name of the member's state.
    pub state: String,
    /// Email, when shared.
    pub email: Option<String>,
    /// GitHub user, when shared.
    pub github: Option<String>,
}

/// Whether a response carries the fields of a stored member.
pub open spec fn response_of(r: ClubMemberResponse, m: ClubMemberModel) -> bool {
    &&& r.uuid@ == m.uuid@
    &&& r.name@ == m.name@
    &&& opt_view(r.birthday) == opt_view(m.birthday)
    &&& r.state@ == m.state@
    &&& opt_view(r.email) == opt_view(m.email)
    &&& opt_view(r.github) == opt_view(m.github)
}

impl ClubMemberResponse {
    /// The response for a stored member.
    pub fn new(cmm: &ClubMemberModel) -> (r: ClubMemberResponse)
        ensures
            response_of(r, *cmm),
    {
        ClubMemberResponse {
            uuid: cmm.uuid.clone(),
            name: cmm.name.clone(),
            birthday: clone_opt(&cmm.birthday),
            email: clone_opt(&cmm.email),
            github: clone_opt(&cmm.github),
            state: cmm.state.clone(),
        }
    }

    /// The responses for stored members, in the same order.
    pub fn from_vector(member_models: &[ClubMemberModel]) -> (r: Vec<ClubMemberResponse>)
        ensures
            r@.len() == member_models@.len(),
            forall|i: int| 0 <= i < r@.len() ==> response_of(#[trigger] r@[i], member_models@[i]),
    {
        let mut out: Vec<ClubMemberResponse> = Vec::new();
        let mut i: usize = 0;
        while i < member_models.len()
            invariant
                i <= member_models@.len(),
                out@.len() == i,
                forall|k: int| 0 <= k < i ==> response_of(#[trigger] out@[k], member_models@[k]),
            decreases member_models@.len() - i,
        {
            out.push(ClubMemberResponse::new(&member_models[i]));
            i = i + 1;
        }
        out
    }
}

} // verus!
