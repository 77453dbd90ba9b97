//! Taking over the settings that the application once kept in the
//! browser's storage: which records are to be saved in the database,
//! decided from the fields that were found there.

use vstd::prelude::*;
use crate::bytes::bytes_copy;

verus! {

/// The fields of the user as they were found; `None` for a field that is
/// missing or is no text.
#[derive(Clone, Debug, PartialEq, Eq)]
pub struct UserFields {
    pub name: Option<Vec<u8>>,
    pub email: Option<Vec<u8>>,
    pub workspace_name: Option<Vec<u8>>,
}

/// The fields of an organization as they were found; `None` for a field
/// that is missing or is no text.
#[derive(Clone, Debug, PartialEq, Eq)]
pub struct OrgFields {
    pub id: Option<Vec<u8>>,
    pub name: Option<Vec<u8>>,
    pub color: Option<Vec<u8>>,
    pub description: Option<Vec<u8>>,
    pub avatar: Option<Vec<u8>>,
}

/// One thing to do in the database.
#[derive(Clone, Debug, PartialEq, Eq)]
pub enum MigrationStep {
    /// Save the user.
    SaveUser { name: Vec<u8>, email: Vec<u8>, workspace_name: Option<Vec<u8>> },
    /// Save an organization.
    SaveOrganization {
        id: Vec<u8>,
        name: Vec<u8>,
        color: Vec<u8>,
        description: Option<Vec<u8>>,
        avatar: Option<Vec<u8>>,
    },
    /// Record that the first start is over.
    CompleteOnboarding,
}

/// A value of [`MigrationStep`] as a value of mathematics.
pub enum StepModel {
    SaveUser { name: Seq<u8>, email: Seq<u8>, workspace_name: Option<Seq<u8>> },
    SaveOrganization {
        id: Seq<u8>,
        name: Seq<u8>,
        color: Seq<u8>,
        description: Option<Seq<u8>>,
        avatar: Option<Seq<u8>>,
    },
    CompleteOnboarding,
}

/// The bytes of a field that may be missing.
pub open spec fn field(f: Option<Vec<u8>>) -> Option<Seq<u8>> {
    match f {
        Some(v) => Some(v@),
        None => None,
    }
}

/// The bytes of a field, `otherwise` where it is missing.
pub open spec fn field_or(f: Option<Vec<u8>>, otherwise: Seq<u8>) -> Seq<u8> {
    match f {
        Some(v) => v@,
        None => otherwise,
    }
}

impl View for MigrationStep {
    type V = StepModel;

    open spec fn view(&self) -> StepModel {
        match *self {
            MigrationStep::SaveUser { name, email, workspace_name } => StepModel::SaveUser {
                name: name@,
                email: email@,
                workspace_name: field(workspace_name),
            },
            MigrationStep::SaveOrganization {
                id,
                name,
                color,
                description,
                avatar,
            } => StepModel::SaveOrganization {
                id: id@,
                name: name@,
                color: color@,
                description: field(description),
                avatar: field(avatar),
            },
            MigrationStep::CompleteOnboarding => StepModel::CompleteOnboarding,
        }
    }
}

/// The views of a list of steps.
pub open spec fn step_models(steps: Seq<MigrationStep>) -> Seq<StepModel> {
    Seq::new(steps.len(), |i: int| steps[i]@)
}

/// `#3b82f6`, the colour of an organization that names none.
pub open spec fn default_color() -> Seq<u8> {
    seq![35u8, 51u8, 98u8, 56u8, 50u8, 102u8, 54u8]
}

/// The step for the user: the user is saved where both the name and the
/// address are there and not empty.
pub open spec fn user_steps(user: Option<UserFields>) -> Seq<StepModel> {
    match user {
        Some(u) => if field_or(u.name, Seq::empty()).len() > 0 && field_or(u.email, Seq::empty()).len()
            > 0 {
            seq![
                StepModel::SaveUser {
                    name: field_or(u.name, Seq::empty()),
                    email: field_or(u.email, Seq::empty()),
                    workspace_name: field(u.workspace_name),
                },
            ]
        } else {
            Seq::empty()
        },
        None => Seq::empty(),
    }
}

/// The step for one organization: it is saved where both its id and its
/// name are there and not empty, with the default colour where it names
/// none.
pub open spec fn org_step(o: OrgFields) -> Seq<StepModel> {
    if field_or(o.id, Seq::empty()).len() > 0 && field_or(o.name, Seq::empty()).len() > 0 {
        seq![
            StepModel::SaveOrganization {
                id: field_or(o.id, Seq::empty()),
                name: field_or(o.name, Seq::empty()),
                color: field_or(o.color, default_color()),
                description: field(o.description),
                avatar: field(o.avatar),
            },
        ]
    } else {
        Seq::empty()
    }
}

/// The steps for the organizations, in their order.
pub open spec fn org_steps(orgs: Seq<OrgFields>) -> Seq<StepModel>
    decreases orgs.len(),
{
    if orgs.len() == 0 {
        Seq::empty()
    } else {
        org_steps(orgs.drop_last()) + org_step(orgs.last())
    }
}

/// What a migration does: it saves the user, then each organization, and
/// then records that the first start is over where the storage says that
/// it is. A missing flag means that it is not over.
pub open spec fn migration_of(user: Option<UserFields>, orgs: Seq<OrgFields>, first_time: Option<bool>)
    -> Seq<StepModel> {
    user_steps(user) + org_steps(orgs) + (if first_time == Some(false) {
        seq![StepModel::CompleteOnboarding]
    } else {
        Seq::empty()
    })
}

fn text_or_empty(f: &Option<Vec<u8>>) -> (r: Vec<u8>)
    ensures
        r@ == field_or(*f, Seq::empty()),
{
    match f {
        Some(v) => bytes_copy(v.as_slice()),
        None => Vec::new(),
    }
}

fn text_of(f: &Option<Vec<u8>>) -> (r: Option<Vec<u8>>)
    ensures
        field(r) == field(*f),
{
    match f {
        Some(v) => Some(bytes_copy(v.as_slice())),
        None => None,
    }
}

fn color_of(f: &Option<Vec<u8>>) -> (r: Vec<u8>)
    ensures
        r@ == field_or(*f, default_color()),
{
    match f {
        Some(v) => bytes_copy(v.as_slice()),
        None => {
            let c: Vec<u8> = vec![35u8, 51u8, 98u8, 56u8, 50u8, 102u8, 54u8];
            assert(c@ =~= default_color());
            c
        },
    }
}

/// The steps of a migration from the fields that were found: see
/// [`migration_of`].
pub fn migration_steps(user: Option<UserFields>, orgs: &Vec<OrgFields>, first_time: Option<bool>) -> (r:
    Vec<MigrationStep>)
    ensures
        step_models(r@) == migration_of(user, orgs@, first_time),
{
    let mut out: Vec<MigrationStep> = Vec::new();
    if let Some(u) = &user {
        let name = text_or_empty(&u.name);
        let email = text_or_empty(&u.email);
        if name.len() > 0 && email.len() > 0 {
            out.push(MigrationStep::SaveUser { name, email, workspace_name: text_of(&u.workspace_name) });
        }
    }
    assert(step_models(out@) =~= user_steps(user));
    let mut i: usize = 0;
    assert(orgs@.take(0) =~= Seq::<OrgFields>::empty());
    while i < orgs.len()
        invariant
            i <= orgs@.len(),
            step_models(out@) == user_steps(user) + org_steps(orgs@.take(i as int)),
        decreases orgs@.len() - i,
    {
        let ghost before = step_models(out@);
        let o = &orgs[i];
        let id = text_or_empty(&o.id);
        let name = text_or_empty(&o.name);
        proof {
            assert(orgs@.take(i + 1).drop_last() =~= orgs@.take(i as int));
            assert(orgs@.take(i + 1).last() == orgs@[i as int]);
        }
        if id.len() > 0 && name.len() > 0 {
            out.push(
                MigrationStep::SaveOrganization {
                    id,
                    name,
                    color: color_of(&o.color),
                    description: text_of(&o.description),
                    avatar: text_of(&o.avatar),
                },
            );
            assert(step_models(out@) =~= before + org_step(orgs@[i as int]));
        } else {
            assert(before + org_step(orgs@[i as int]) =~= before);
        }
        assert(step_models(out@) =~= user_steps(user) + org_steps(orgs@.take(i + 1)));
        i += 1;
    }
    assert(orgs@.take(i as int) =~= orgs@);
    let ghost before = step_models(out@);
    match first_time {
        Some(false) => {
            out.push(MigrationStep::CompleteOnboarding);
            assert(step_models(out@) =~= before + seq![StepModel::CompleteOnboarding]);
        },
        _ => {
            assert(before + Seq::<StepModel>::empty() =~= before);
        },
    }
    out
}

} // verus!
