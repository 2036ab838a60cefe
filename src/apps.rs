//! Client applications of the club's API.
use vstd::prelude::*;

verus! {

/// A registered client application.
pub struct AppModel {
    /// Unique identifier.
    pub uuid: String,
    /// Name.
    pub name: String,
    /// Short description.
    pub description: Option<String>,
    /// Hash of the application's API key.
    pub api_token: String,
    /// Creation time, in seconds since the Unix epoch.
    pub created_at: i64,
    /// Time of the last change, in seconds since the Unix epoch.
    pub updated_at: i64,
    /// Deletion time, for a deleted application.
    pub deleted_at: Option<i64>,
}

/// What is needed to register an application: a name and an optional description.
pub struct CreateAppSchema {
    /// Name.
    pub name: String,
    /// Description.
    pub description: Option<String>,
}

/// A change to an application: each given field replaces the stored one.
pub struct UpdateAppSchema {
    /// New name.
    pub name: Option<String>,
    /// New description.
    pub description: Option<String>,
}

} // verus!
