use indexer::apps::{AppModel, CreateAppSchema, UpdateAppSchema};
use indexer::responses::BasicResponse;
use indexer::members::{
    ClubMemberModel, ClubMemberResponse, CreateMemberSchema, MemberState, UpdateMemberSchema,
};
use indexer::projects::{
    involvement_additions, involvement_removals, CreateProjectSchema, Project, ProjectModel,
    ProjectState, UnknownProjectState, UpdateInvolvedSchema, UpdateProjectSchema,
};

fn member(uuid: &str) -> ClubMemberModel {
    ClubMemberModel {
        uuid: String::from(uuid),
        name: String::from("Ana"),
        birthday: Some(String::from("2000-01-01")),
        state: String::from("Active"),
        email: None,
        github: Some(String::from("ana")),
        created_at: 10,
        updated_at: 20,
    }
}

#[test]
fn member_state_names() {
    assert_eq!(MemberState::from(String::from("Active")), MemberState::Active);
    assert_eq!(MemberState::from(String::from("Graduated")), MemberState::Graduated);
    assert_eq!(MemberState::from(String::from("NoLongerAMember")), MemberState::NoLongerAMember);
    assert_eq!(MemberState::from(String::from("Unactive")), MemberState::Unactive);
    assert_eq!(MemberState::from(String::from("whatever")), MemberState::Unactive);
    assert_eq!(MemberState::Graduated.name(), "Graduated");
    assert_eq!(MemberState::NoLongerAMember.name(), "NoLongerAMember");
    for s in [
        MemberState::Active,
        MemberState::Unactive,
        MemberState::Graduated,
        MemberState::NoLongerAMember,
    ] {
        assert_eq!(MemberState::from_name(&s.name()), s);
    }
}

#[test]
fn project_state_names() {
    assert_eq!(ProjectState::from_str("InProgress"), Ok(ProjectState::InProgress));
    assert_eq!(ProjectState::from_str("Cancelled"), Ok(ProjectState::Cancelled));
    assert_eq!(ProjectState::from_str("cancelled"), Err(UnknownProjectState));
    assert_eq!(ProjectState::try_from(String::from("Idle")), Ok(ProjectState::Idle));
    assert_eq!(ProjectState::try_from(String::new()), Err(UnknownProjectState));
}

#[test]
fn member_response_copies_fields() {
    let m = member("u1");
    let r = ClubMemberResponse::new(&m);
    assert_eq!(r.uuid, "u1");
    assert_eq!(r.name, "Ana");
    assert_eq!(r.birthday, Some(String::from("2000-01-01")));
    assert_eq!(r.state, "Active");
    assert_eq!(r.email, None);
    assert_eq!(r.github, Some(String::from("ana")));
    let all = ClubMemberResponse::from_vector(&[member("u1"), member("u2")]);
    assert_eq!(all.len(), 2);
    assert_eq!(all[1].uuid, "u2");
}

#[test]
fn member_update_keeps_absent_fields() {
    let m = member("u1");
    let u = UpdateMemberSchema {
        name: None,
        birthday: None,
        email: Some(String::from("ana@club.org")),
        github: None,
        state: Some(String::from("Graduated")),
    };
    let r = m.apply_update(&u);
    assert_eq!(r.uuid, "u1");
    assert_eq!(r.name, "Ana");
    assert_eq!(r.birthday, Some(String::from("2000-01-01")));
    assert_eq!(r.email, Some(String::from("ana@club.org")));
    assert_eq!(r.github, Some(String::from("ana")));
    assert_eq!(r.state, "Graduated");
    assert_eq!((r.created_at, r.updated_at), (10, 20));
}

#[test]
fn involvement_changes() {
    assert_eq!(involvement_additions(vec![5, 3, 5, 9, 1], &vec![9, 2]), vec![1, 3, 5]);
    assert_eq!(involvement_additions(vec![], &vec![9]), Vec::<u128>::new());
    assert_eq!(involvement_removals(vec![7, 7, 2]), vec![2, 7]);
}

#[test]
fn schemas_hold_their_fields() {
    let a = CreateAppSchema { name: String::from("web"), description: None };
    let u = UpdateAppSchema { name: Some(a.name.clone()), description: None };
    assert_eq!(u.name, Some(String::from("web")));
    let c = CreateMemberSchema {
        name: String::from("Ana"),
        birthday: None,
        email: None,
        github: None,
    };
    let p = Project {
        uuid: String::from("p1"),
        involved: ClubMemberResponse::from_vector(&[member("u1")]),
        name: c.name,
        description: String::new(),
        state: ProjectState::NotStarted,
    };
    assert_eq!(p.involved.len(), 1);
    assert_eq!(p.state, ProjectState::NotStarted);
}

#[test]
fn project_update_replaces_given_fields() {
    let p = ProjectModel {
        uuid: String::from("p1"),
        name: String::from("Indexer"),
        description: None,
        state: ProjectState::NotStarted,
        involved: ClubMemberResponse::from_vector(&[member("u1")]),
        created_at: 1,
        updated_at: 2,
    };
    let data = UpdateProjectSchema {
        name: None,
        description: None,
        involved: Some(UpdateInvolvedSchema::new()),
        state: Some(ProjectState::InProgress),
    };
    let r = p.apply_update(&data);
    assert_eq!(r.uuid, "p1");
    assert_eq!(r.name, "Indexer");
    assert_eq!(r.description, Some(String::new()));
    assert_eq!(r.state, ProjectState::InProgress);
    assert_eq!(r.involved.len(), 1);
    assert_eq!((r.created_at, r.updated_at), (1, 2));

    let data = UpdateProjectSchema {
        name: Some(String::from("Buscador")),
        description: Some(String::from("TF-IDF")),
        involved: None,
        state: None,
    };
    let r = r.apply_update(&data);
    assert_eq!(r.name, "Buscador");
    assert_eq!(r.description, Some(String::from("TF-IDF")));
    assert_eq!(r.state, ProjectState::InProgress);
    let kept = r.apply_update(&UpdateProjectSchema {
        name: None,
        description: None,
        involved: None,
        state: None,
    });
    assert_eq!(kept.description, Some(String::from("TF-IDF")));
}

#[test]
fn create_schemas_and_app_record() {
    let c = CreateProjectSchema {
        name: String::from("Web"),
        description: None,
        involved: Some(vec![3, 1]),
    };
    assert_eq!(involvement_additions(c.involved.unwrap(), &vec![]), vec![1, 3]);
    let app = AppModel {
        uuid: String::from("a1"),
        name: String::from("web"),
        description: None,
        api_token: String::from("hash"),
        created_at: 5,
        updated_at: 5,
        deleted_at: None,
    };
    assert_eq!(app.deleted_at, None);
}

#[test]
fn basic_response_is_ok_with_message_and_data() {
    let r = BasicResponse::new(String::from("Lista de miembros"), Some(vec![1, 2]));
    assert_eq!(r.status, 200);
    assert_eq!(r.message, "Lista de miembros");
    assert_eq!(r.data, Some(vec![1, 2]));
    let e: BasicResponse<()> = BasicResponse::new(String::from("ok"), None);
    assert_eq!(e.data, None);
}
