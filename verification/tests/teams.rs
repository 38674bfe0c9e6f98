use pokerbots::accounts::{random, ApiError};
use pokerbots::membership::{
    confirmed_check, create_invite_check, create_team_check, delete_team_check, join_team_check,
    leave_team_check, owner_action_check, payload_check, register_check, rename_team_check,
    resume_type_check,
    reset_link_check, verification_check, TeamView, CONFLICT, NOT_FOUND, PFP_SIZE, TEAM_SIZE,
    UNAUTHORIZED,
};
use rand::rngs::StdRng;
use rand::SeedableRng;

fn refused(res: Result<(), ApiError>) -> (u16, String) {
    let e = res.unwrap_err();
    (e.status_code, e.message)
}

fn err(code: u16, msg: &str) -> (u16, String) {
    (code, msg.to_string())
}

fn team(owner: &str, members: usize, invites: usize) -> Option<TeamView> {
    Some(TeamView { id: 3, owner: owner.to_string(), members, invites })
}

const BAD_TEAM_NAME: &str =
    "Invalid team name. It must be at most 20 characters and cannot contain consecutive spaces.";

#[test]
fn creating_teams() {
    assert!(create_team_check(true, true, false, "Bluffers").is_ok());
    assert_eq!(refused(create_team_check(false, true, false, "Bluffers")), err(401, "Not logged in"));
    assert_eq!(
        refused(create_team_check(true, false, false, "Bluffers")),
        err(UNAUTHORIZED, "Your profile must be completed to create a team.")
    );
    assert_eq!(refused(create_team_check(true, true, true, "Bluffers")), err(409, "You are already on a team."));
    assert_eq!(refused(create_team_check(true, true, false, "no  way")), err(406, BAD_TEAM_NAME));
    // the first failing check answers
    assert_eq!(refused(create_team_check(false, false, true, "x")), err(401, "Not logged in"));
}

#[test]
fn owners_and_members() {
    let me = Some("u1".to_string());
    let other = Some("u2".to_string());
    assert!(delete_team_check(&me, &team("u1", 2, 0)).is_ok());
    assert_eq!(
        refused(delete_team_check(&other, &team("u1", 2, 0))),
        err(NOT_FOUND, "You can't delete a team if you are not the owner.")
    );
    assert_eq!(refused(delete_team_check(&None, &team("u1", 2, 0))), err(401, "Not logged in"));
    assert_eq!(refused(delete_team_check(&me, &None)), err(401, "Not on a team"));
    assert!(leave_team_check(&other, &team("u1", 2, 0)).is_ok());
    assert_eq!(
        refused(leave_team_check(&me, &team("u1", 2, 0))),
        err(406, "You can't leave the team if you are the owner.")
    );
    assert!(owner_action_check(&me, &team("u1", 2, 0)).is_ok());
    assert_eq!(
        refused(owner_action_check(&other, &team("u1", 2, 0))),
        err(401, "Only the team owner can kick members.")
    );
    assert!(rename_team_check(&other, &team("u1", 2, 0), "New Name").is_ok());
    assert_eq!(refused(rename_team_check(&other, &team("u1", 2, 0), "!!")), err(406, BAD_TEAM_NAME));
    assert_eq!(refused(rename_team_check(&other, &None, "New Name")), err(401, "Not on a team"));
}

#[test]
fn invites() {
    let me = Some("u1".to_string());
    assert_eq!(TEAM_SIZE, 5);
    assert!(create_invite_check(&me, &team("u1", 3, 1)).is_ok());
    assert_eq!(refused(create_invite_check(&me, &team("u1", 3, 2))), err(406, "Team is full."));
    assert_eq!(refused(create_invite_check(&me, &team("u1", 6, 0))), err(406, "Team is full."));
    assert!(join_team_check(true, false, true, Some(100), 100).is_ok());
    assert!(join_team_check(true, false, true, Some(101), 100).is_ok());
    assert_eq!(refused(join_team_check(true, false, true, Some(99), 100)), err(406, "Invalid code."));
    assert_eq!(refused(join_team_check(true, false, true, None, 100)), err(406, "Invalid code."));
    assert_eq!(refused(join_team_check(true, true, true, Some(200), 100)), err(406, "You are already on a team."));
    assert_eq!(
        refused(join_team_check(true, false, false, Some(200), 100)),
        err(401, "Your profile must be completed to create a team.")
    );
    assert_eq!(refused(join_team_check(false, false, true, Some(200), 100)), err(401, "Not logged in"));
}

#[test]
fn upload_sizes() {
    assert_eq!(PFP_SIZE, 500000);
    assert!(payload_check(499000, 1000, PFP_SIZE, "PFP too large").is_ok());
    assert_eq!(refused(payload_check(499000, 1001, PFP_SIZE, "PFP too large")), err(400, "PFP too large"));
    assert_eq!(refused(payload_check(0, 11, 10, "Bot too large")), err(400, "Bot too large"));
    assert!(resume_type_check(&Some("application/pdf".to_string())).is_ok());
    assert_eq!(refused(resume_type_check(&Some("text/plain".to_string()))), err(400, "Invalid content type"));
    assert_eq!(refused(resume_type_check(&None)), err(400, "Invalid content type"));
}

#[test]
fn sign_in_links() {
    assert!(register_check(None, "secret1").is_ok());
    assert!(register_check(Some(false), "secret1").is_ok());
    assert_eq!(
        refused(register_check(Some(true), "secret1")),
        err(400, "There is already an account with this email.")
    );
    assert_eq!(refused(register_check(Some(false), "short")), err(400, "Password must be at least 6 characters"));
    assert!(confirmed_check(true).is_ok());
    assert_eq!(refused(confirmed_check(false)), err(401, "Email not confirmed"));
    assert!(reset_link_check(Some(10), 10).is_ok());
    assert_eq!(refused(reset_link_check(Some(9), 10)), err(401, "Reset link expired"));
    assert_eq!(refused(reset_link_check(None, 10)), err(401, "Reset link expired"));
    let link = Some("abc".to_string());
    assert!(verification_check(false, Some(20), 10, &link, "abc").is_ok());
    assert_eq!(refused(verification_check(true, Some(20), 10, &link, "abc")), err(CONFLICT, "Email already confirmed"));
    assert_eq!(refused(verification_check(false, Some(5), 10, &link, "abc")), err(401, "Verification link expired"));
    assert_eq!(refused(verification_check(false, Some(20), 10, &link, "abd")), err(401, "Invalid verification link"));
    assert_eq!(refused(verification_check(false, Some(20), 10, &None, "abc")), err(401, "Invalid verification link"));
}

#[test]
fn random_codes() {
    let charset: &[u8] = b"abcdefghijklmnopqrstuvwxyzABCDEFGHIJKLMNOPQRSTUVWXYZ0123456789";
    let mut rng = StdRng::from_seed([1; 32]);
    let a = random(charset, 32, &mut rng);
    let b = random(charset, 32, &mut rng);
    assert_eq!(a.len(), 32);
    assert!(a.bytes().all(|c| charset.contains(&c)));
    assert_ne!(a, b);
    assert_eq!(random(charset, 0, &mut rng), "");
    assert_eq!(random(b"x", 4, &mut rng), "xxxx");
}
