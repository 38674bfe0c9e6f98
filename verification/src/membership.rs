//! Who may do what with teams, invites, uploads and sign-in links: the
//! checks the website makes before it touches the database.
use crate::accounts::{
    name_ok, same_text, validate_name, validate_password, byte_len, ApiError, BAD_REQUEST, NOT_ACCEPTABLE,
};
use vstd::prelude::*;

verus! {

pub const UNAUTHORIZED: u16 = 401u16;

pub const NOT_FOUND: u16 = 404u16;

pub const CONFLICT: u16 = 409u16;

/// How many members and open invites a team may have together.
pub const TEAM_SIZE: usize = 5usize;

/// The largest profile picture, in bytes.
pub const PFP_SIZE: usize = 500000usize;

/// What the session knows of the signed-in user's team.
pub struct TeamView {
    pub id: i32,
    /// The id of the team's owner.
    pub owner: String,
    pub members: usize,
    pub invites: usize,
}

/// `res` answers as `refusal` says: success when there is none, otherwise
/// an error with its status and message.
pub open spec fn answers(res: Result<(), ApiError>, refusal: Option<(u16, Seq<char>)>) -> bool {
    match refusal {
        None => res is Ok,
        Some((code, msg)) => res matches Err(e) && e.status_code == code && e.message@ == msg,
    }
}

pub open spec fn invalid_team_name() -> Seq<char> {
    "Invalid team name. It must be at most 20 characters and cannot contain consecutive spaces."@
}

fn refuse(code: u16, msg: &str) -> (e: ApiError)
    ensures
        e.status_code == code,
        e.message@ == msg@,
{
    ApiError { status_code: code, message: String::from_str(msg) }
}

fn check_team_name(name: &str) -> (res: Result<(), ApiError>)
    ensures
        answers(res, if name_ok(name@) { None } else { Some((NOT_ACCEPTABLE, invalid_team_name())) }),
{
    validate_name(
        name,
        "Invalid team name. It must be at most 20 characters and cannot contain consecutive spaces.",
    )
}

// ------------------------------------------------------------------
// Teams
// ------------------------------------------------------------------

pub open spec fn create_team_refusal(logged_in: bool, has_profile: bool, on_team: bool, name: Seq<char>) -> Option<(u16, Seq<char>)> {
    if !logged_in {
        Some((UNAUTHORIZED, "Not logged in"@))
    } else if !has_profile {
        Some((UNAUTHORIZED, "Your profile must be completed to create a team."@))
    } else if on_team {
        Some((CONFLICT, "You are already on a team."@))
    } else if !name_ok(name) {
        Some((NOT_ACCEPTABLE, invalid_team_name()))
    } else {
        None
    }
}

/// A team can be created by a signed-in user with a completed profile who
/// is on no team, under a valid name.
pub fn create_team_check(logged_in: bool, has_profile: bool, on_team: bool, name: &str) -> (res: Result<(), ApiError>)
    ensures
        answers(res, create_team_refusal(logged_in, has_profile, on_team, name@)),
{
    if !logged_in {
        return Err(refuse(UNAUTHORIZED, "Not logged in"));
    }
    if !has_profile {
        return Err(refuse(UNAUTHORIZED, "Your profile must be completed to create a team."));
    }
    if on_team {
        return Err(refuse(CONFLICT, "You are already on a team."));
    }
    check_team_name(name)
}

/// Refusals shared by the actions of a team member: signed in, then on a
/// team.
pub open spec fn member_refusal(user: Option<String>, team: Option<TeamView>) -> Option<(u16, Seq<char>)> {
    if user is None {
        Some((UNAUTHORIZED, "Not logged in"@))
    } else if team is None {
        Some((UNAUTHORIZED, "Not on a team"@))
    } else {
        None
    }
}

pub open spec fn is_owner(user: Option<String>, team: Option<TeamView>) -> bool {
    user matches Some(u) && team matches Some(t) && t.owner@ == u@
}

fn owner_matches(user: &Option<String>, team: &Option<TeamView>) -> (res: bool)
    ensures
        res == is_owner(*user, *team),
{
    match (user, team) {
        (Some(u), Some(t)) => same_text(t.owner.as_str(), u.as_str()),
        _ => false,
    }
}

fn member_check(user: &Option<String>, team: &Option<TeamView>) -> (res: Result<(), ApiError>)
    ensures
        answers(res, member_refusal(*user, *team)),
{
    if user.is_none() {
        return Err(refuse(UNAUTHORIZED, "Not logged in"));
    }
    if team.is_none() {
        return Err(refuse(UNAUTHORIZED, "Not on a team"));
    }
    Ok(())
}

pub open spec fn delete_team_refusal(user: Option<String>, team: Option<TeamView>) -> Option<(u16, Seq<char>)> {
    if member_refusal(user, team) is Some {
        member_refusal(user, team)
    } else if !is_owner(user, team) {
        Some((NOT_FOUND, "You can't delete a team if you are not the owner."@))
    } else {
        None
    }
}

/// Only the owner deletes a team.
pub fn delete_team_check(user: &Option<String>, team: &Option<TeamView>) -> (res: Result<(), ApiError>)
    ensures
        answers(res, delete_team_refusal(*user, *team)),
{
    member_check(user, team)?;
    if !owner_matches(user, team) {
        return Err(refuse(NOT_FOUND, "You can't delete a team if you are not the owner."));
    }
    Ok(())
}

pub open spec fn leave_team_refusal(user: Option<String>, team: Option<TeamView>) -> Option<(u16, Seq<char>)> {
    if member_refusal(user, team) is Some {
        member_refusal(user, team)
    } else if is_owner(user, team) {
        Some((NOT_ACCEPTABLE, "You can't leave the team if you are the owner."@))
    } else {
        None
    }
}

/// Every member but the owner may leave a team.
pub fn leave_team_check(user: &Option<String>, team: &Option<TeamView>) -> (res: Result<(), ApiError>)
    ensures
        answers(res, leave_team_refusal(*user, *team)),
{
    member_check(user, team)?;
    if owner_matches(user, team) {
        return Err(refuse(NOT_ACCEPTABLE, "You can't leave the team if you are the owner."));
    }
    Ok(())
}

/// A signed-in member of a team may either delete it or leave it, never
/// both: the owner deletes, every other member leaves.
pub proof fn lemma_owner_deletes_member_leaves(user: Option<String>, team: Option<TeamView>)
    requires
        user is Some,
        team is Some,
    ensures
        delete_team_refusal(user, team) is None <==> leave_team_refusal(user, team) is Some,
        delete_team_refusal(user, team) is None <==> is_owner(user, team),
{
}

pub open spec fn create_invite_refusal(user: Option<String>, team: Option<TeamView>) -> Option<(u16, Seq<char>)> {
    if member_refusal(user, team) is Some {
        member_refusal(user, team)
    } else if team->0.invites + team->0.members >= TEAM_SIZE {
        Some((NOT_ACCEPTABLE, "Team is full."@))
    } else {
        None
    }
}

/// A member may invite while the members and open invites together stay
/// under the team size.
pub fn create_invite_check(user: &Option<String>, team: &Option<TeamView>) -> (res: Result<(), ApiError>)
    requires
        team matches Some(t) ==> t.invites + t.members <= usize::MAX,
    ensures
        answers(res, create_invite_refusal(*user, *team)),
{
    member_check(user, team)?;
    match team {
        Some(t) => {
            if t.invites + t.members >= TEAM_SIZE {
                return Err(refuse(NOT_ACCEPTABLE, "Team is full."));
            }
            Ok(())
        },
        None => Ok(()),
    }
}

/// An invite is only made while the team has room for one more member:
/// after it, members and open invites together stay within the team size.
pub proof fn lemma_invites_keep_team_size(user: Option<String>, team: Option<TeamView>)
    requires
        create_invite_refusal(user, team) is None,
    ensures
        team->0.members + team->0.invites + 1 <= TEAM_SIZE,
{
}

/// A signed-in member of a team is refused an invite exactly when the
/// members and open invites already fill the team: with room for one more,
/// the invite is made.
pub proof fn lemma_invite_refused_iff_full(user: Option<String>, team: Option<TeamView>)
    requires
        user is Some,
        team is Some,
    ensures
        create_invite_refusal(user, team) is None <==> team->0.members + team->0.invites + 1 <= TEAM_SIZE,
        create_invite_refusal(user, team) is Some ==> create_invite_refusal(user, team)->0 == (
        NOT_ACCEPTABLE,
        "Team is full."@,
    ),
{
}

/// A team is created exactly by a signed-in user with a completed profile
/// who is on no team, under a valid name.
pub proof fn lemma_create_team_allowed(logged_in: bool, has_profile: bool, on_team: bool, name: Seq<char>)
    ensures
        create_team_refusal(logged_in, has_profile, on_team, name) is None <==> (logged_in && has_profile
            && !on_team && name_ok(name)),
{
}

/// A team is joined exactly by a signed-in user with a completed profile
/// who is on no team, with an invite that has not expired by `now`.
pub proof fn lemma_join_team_allowed(
    logged_in: bool,
    on_team: bool,
    has_profile: bool,
    invite_expires: Option<i64>,
    now: i64,
)
    ensures
        join_team_refusal(logged_in, on_team, has_profile, invite_expires, now) is None <==> (logged_in
            && has_profile && !on_team && invite_expires is Some && invite_expires->0 >= now),
{
}

/// Any member renames the team, to a valid name; only the owner kicks or
/// hands the team over.
pub proof fn lemma_member_actions_allowed(user: Option<String>, team: Option<TeamView>, to: Seq<char>)
    ensures
        rename_team_refusal(user, team, to) is None <==> (user is Some && team is Some && name_ok(to)),
        owner_action_refusal(user, team) is None <==> (user is Some && team is Some && team->0.owner@
            == user->0@),
{
}

pub open spec fn join_team_refusal(
    logged_in: bool,
    on_team: bool,
    has_profile: bool,
    invite_expires: Option<i64>,
    now: i64,
) -> Option<(u16, Seq<char>)> {
    if !logged_in {
        Some((UNAUTHORIZED, "Not logged in"@))
    } else if !has_profile {
        Some((UNAUTHORIZED, "Your profile must be completed to create a team."@))
    } else if on_team {
        Some((NOT_ACCEPTABLE, "You are already on a team."@))
    } else {
        match invite_expires {
            None => Some((NOT_ACCEPTABLE, "Invalid code."@)),
            Some(exp) => if exp < now {
                Some((NOT_ACCEPTABLE, "Invalid code."@))
            } else {
                None
            },
        }
    }
}

/// A signed-in user with a completed profile who is on no team joins with
/// an invite code that exists and has not expired at `now`;
/// `invite_expires` is the expiry of the invite with that code, if any.
pub fn join_team_check(
    logged_in: bool,
    on_team: bool,
    has_profile: bool,
    invite_expires: Option<i64>,
    now: i64,
) -> (res: Result<(), ApiError>)
    ensures
        answers(res, join_team_refusal(logged_in, on_team, has_profile, invite_expires, now)),
{
    if !logged_in {
        return Err(refuse(UNAUTHORIZED, "Not logged in"));
    }
    if !has_profile {
        return Err(refuse(UNAUTHORIZED, "Your profile must be completed to create a team."));
    }
    if on_team {
        return Err(refuse(NOT_ACCEPTABLE, "You are already on a team."));
    }
    match invite_expires {
        None => Err(refuse(NOT_ACCEPTABLE, "Invalid code.")),
        Some(exp) => {
            if exp < now {
                Err(refuse(NOT_ACCEPTABLE, "Invalid code."))
            } else {
                Ok(())
            }
        },
    }
}

pub open spec fn owner_action_refusal(user: Option<String>, team: Option<TeamView>) -> Option<(u16, Seq<char>)> {
    if member_refusal(user, team) is Some {
        member_refusal(user, team)
    } else if !is_owner(user, team) {
        Some((UNAUTHORIZED, "Only the team owner can kick members."@))
    } else {
        None
    }
}

/// Only the owner kicks a member or hands the team to another owner.
pub fn owner_action_check(user: &Option<String>, team: &Option<TeamView>) -> (res: Result<(), ApiError>)
    ensures
        answers(res, owner_action_refusal(*user, *team)),
{
    member_check(user, team)?;
    if !owner_matches(user, team) {
        return Err(refuse(UNAUTHORIZED, "Only the team owner can kick members."));
    }
    Ok(())
}

pub open spec fn rename_team_refusal(user: Option<String>, team: Option<TeamView>, to: Seq<char>) -> Option<(u16, Seq<char>)> {
    if member_refusal(user, team) is Some {
        member_refusal(user, team)
    } else if !name_ok(to) {
        Some((NOT_ACCEPTABLE, invalid_team_name()))
    } else {
        None
    }
}

/// Any member may rename the team, to a valid name.
pub fn rename_team_check(user: &Option<String>, team: &Option<TeamView>, to: &str) -> (res: Result<(), ApiError>)
    ensures
        answers(res, rename_team_refusal(*user, *team, to@)),
{
    member_check(user, team)?;
    check_team_name(to)
}

// ------------------------------------------------------------------
// Uploads
// ------------------------------------------------------------------

/// An upload that arrives in chunks is refused as a bad request as soon as
/// what was received and the next chunk exceed `limit` bytes.
pub fn payload_check(received: usize, chunk: usize, limit: usize, message: &str) -> (res: Result<(), ApiError>)
    requires
        received + chunk <= usize::MAX,
    ensures
        answers(res, if received + chunk > limit { Some((BAD_REQUEST, message@)) } else { None }),
{
    if received + chunk > limit {
        return Err(refuse(BAD_REQUEST, message));
    }
    Ok(())
}

/// A resume must be sent as a PDF: the content type, when there is one,
/// must be exactly `application/pdf`.
pub fn resume_type_check(content_type: &Option<String>) -> (res: Result<(), ApiError>)
    ensures
        answers(
            res,
            if content_type matches Some(t) && t@ == "application/pdf"@ {
                None
            } else {
                Some((BAD_REQUEST, "Invalid content type"@))
            },
        ),
{
    let ok = match content_type {
        Some(t) => same_text(t.as_str(), "application/pdf"),
        None => false,
    };
    if !ok {
        return Err(refuse(BAD_REQUEST, "Invalid content type"));
    }
    Ok(())
}

// ------------------------------------------------------------------
// Sign-in links and passwords
// ------------------------------------------------------------------

/// A link expired when its expiry is missing or lies before `now`.
pub open spec fn expired(expiration: Option<i64>, now: i64) -> bool {
    match expiration {
        None => true,
        Some(t) => t < now,
    }
}

fn is_expired(expiration: Option<i64>, now: i64) -> (res: bool)
    ensures
        res == expired(expiration, now),
{
    match expiration {
        None => true,
        Some(t) => t < now,
    }
}

pub open spec fn register_refusal(existing_confirmed: Option<bool>, password: Seq<char>) -> Option<(u16, Seq<char>)> {
    if existing_confirmed == Some(true) {
        Some((BAD_REQUEST, "There is already an account with this email."@))
    } else if byte_len(password) < 6 {
        Some((BAD_REQUEST, "Password must be at least 6 characters"@))
    } else {
        None
    }
}

/// An email can be registered unless a confirmed account has it, with a
/// password of at least 6 bytes; `existing_confirmed` tells whether an
/// account with the email exists and is confirmed.
pub fn register_check(existing_confirmed: Option<bool>, password: &str) -> (res: Result<(), ApiError>)
    ensures
        answers(res, register_refusal(existing_confirmed, password@)),
{
    if existing_confirmed == Some(true) {
        return Err(refuse(BAD_REQUEST, "There is already an account with this email."));
    }
    validate_password(password)
}

/// A confirmed email may sign in or ask for a password reset.
pub fn confirmed_check(email_confirmed: bool) -> (res: Result<(), ApiError>)
    ensures
        answers(res, if email_confirmed { None } else { Some((UNAUTHORIZED, "Email not confirmed"@)) }),
{
    if !email_confirmed {
        return Err(refuse(UNAUTHORIZED, "Email not confirmed"));
    }
    Ok(())
}

/// A password reset link works until it expires.
pub fn reset_link_check(expiration: Option<i64>, now: i64) -> (res: Result<(), ApiError>)
    ensures
        answers(res, if expired(expiration, now) { Some((UNAUTHORIZED, "Reset link expired"@)) } else { None }),
{
    if is_expired(expiration, now) {
        return Err(refuse(UNAUTHORIZED, "Reset link expired"));
    }
    Ok(())
}

pub open spec fn verification_refusal(
    email_confirmed: bool,
    expiration: Option<i64>,
    now: i64,
    stored: Option<Seq<char>>,
    given: Seq<char>,
) -> Option<(u16, Seq<char>)> {
    if email_confirmed {
        Some((CONFLICT, "Email already confirmed"@))
    } else if expired(expiration, now) {
        Some((UNAUTHORIZED, "Verification link expired"@))
    } else if stored != Some(given) {
        Some((UNAUTHORIZED, "Invalid verification link"@))
    } else {
        None
    }
}

pub open spec fn text_of(o: Option<String>) -> Option<Seq<char>> {
    match o {
        Some(s) => Some(s@),
        None => None,
    }
}

/// A verification link confirms an email that is not confirmed yet, before
/// the link expires, when it is the link that was sent.
pub fn verification_check(
    email_confirmed: bool,
    expiration: Option<i64>,
    now: i64,
    stored: &Option<String>,
    given: &str,
) -> (res: Result<(), ApiError>)
    ensures
        answers(res, verification_refusal(email_confirmed, expiration, now, text_of(*stored), given@)),
{
    if email_confirmed {
        return Err(refuse(CONFLICT, "Email already confirmed"));
    }
    if is_expired(expiration, now) {
        return Err(refuse(UNAUTHORIZED, "Verification link expired"));
    }
    let same = match stored {
        Some(s) => same_text(s.as_str(), given),
        None => false,
    };
    if !same {
        return Err(refuse(UNAUTHORIZED, "Invalid verification link"));
    }
    Ok(())
}

} // verus!
