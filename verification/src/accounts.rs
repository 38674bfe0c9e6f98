//! Rules of the league website for accounts, names and logins.
use crate::results::gen_index;
use rand::rngs::StdRng;
use vstd::prelude::*;
use vstd::utf8::encode_utf8;

verus! {

/// An error answered to an API request: an HTTP status and a message.
#[derive(Debug)]
pub struct ApiError {
    pub status_code: u16,
    pub message: String,
}

pub const BAD_REQUEST: u16 = 400u16;

pub const NOT_ACCEPTABLE: u16 = 406u16;

/// Calls `String::push`: the character is appended.
#[verifier::external_body]
fn push_char(s: &mut String, c: char)
    ensures
        final(s)@ == old(s)@.push(c),
{
    s.push(c);
}

/// `c` is one of the bytes of `charset`, read as a character.
pub open spec fn drawn_from(c: char, charset: Seq<u8>) -> bool {
    exists|j: int| 0 <= j < charset.len() && c == (charset[j] as char)
}

/// A random code of `len` characters, each drawn with the generator from
/// the bytes of `charset`.
pub fn random(charset: &[u8], len: usize, rng: &mut StdRng) -> (res: String)
    requires
        charset@.len() > 0,
    ensures
        res@.len() == len,
        forall|i: int| 0 <= i < len ==> #[trigger] drawn_from(res@[i], charset@),
{
    let mut out = String::new();
    let mut k: usize = 0;
    while k < len
        invariant
            charset@.len() > 0,
            k <= len,
            out@.len() == k,
            forall|i: int| 0 <= i < k ==> #[trigger] drawn_from(out@[i], charset@),
        decreases len - k,
    {
        let idx = gen_index(rng, 0, charset.len());
        let c = charset[idx] as char;
        push_char(&mut out, c);
        assert(out@[k as int] == (charset@[idx as int] as char));
        assert(drawn_from(out@[k as int], charset@));
        k = k + 1;
    }
    out
}

/// The answer to signing out.
pub struct SignoutResponse {
    pub message: String,
    pub message_type: String,
}

/// Where a page of the site is.
#[derive(PartialEq, Eq, Clone, Copy, Debug, Structural)]
pub enum NavLocation {
    HomePage,
    ManageTeam,
    Leaderboard,
}

// ------------------------------------------------------------------
// Characters and names
// ------------------------------------------------------------------

/// What `char::is_alphanumeric` answers for `c`.
pub uninterp spec fn is_alphanumeric(c: char) -> bool;

/// Calls `char::is_alphanumeric`: whether the character is alphabetic or
/// numeric in Unicode's sense; the answer is named, not spelled out.
#[verifier::external_body]
fn char_is_alphanumeric(c: char) -> (b: bool)
    ensures
        b == is_alphanumeric(c),
{
    c.is_alphanumeric()
}

/// The length of a text in bytes of UTF-8, as `str::len` gives it.
pub open spec fn byte_len(s: Seq<char>) -> int {
    (encode_utf8(s).len() as usize) as int
}

pub open spec fn name_char_ok(c: char) -> bool {
    is_alphanumeric(c) || c == ' ' || c == '-'
}

pub open spec fn has_double_space(s: Seq<char>) -> bool {
    exists|i: int| 0 <= i < s.len() - 1 && s[i] == ' ' && #[trigger] s[i + 1] == ' '
}

/// A team or person name: 3 to 20 bytes of letters, digits, spaces and
/// hyphens, with no two spaces in a row.
pub open spec fn name_ok(name: Seq<char>) -> bool {
    &&& 3 <= byte_len(name) <= 20
    &&& forall|i: int| 0 <= i < name.len() ==> #[trigger] name_char_ok(name[i])
    &&& !has_double_space(name)
}

fn chars_ok(name: &str) -> (res: bool)
    ensures
        res == ((forall|i: int| 0 <= i < name@.len() ==> #[trigger] name_char_ok(name@[i]))
            && !has_double_space(name@)),
{
    let n = name.unicode_len();
    let mut i: usize = 0;
    while i < n
        invariant
            n == name@.len(),
            i <= n,
            forall|j: int| 0 <= j < i ==> #[trigger] name_char_ok(name@[j]),
        decreases n - i,
    {
        let c = name.get_char(i);
        if !char_is_alphanumeric(c) && c != ' ' && c != '-' {
            assert(!name_char_ok(name@[i as int]));
            return false;
        }
        i = i + 1;
    }
    let mut j: usize = 0;
    while j < n && j + 1 < n
        invariant
            n == name@.len(),
            j <= n,
            forall|k: int| 0 <= k < j ==> !(name@[k] == ' ' && #[trigger] name@[k + 1] == ' '),
        decreases n - j,
    {
        if name.get_char(j) == ' ' && name.get_char(j + 1) == ' ' {
            assert(has_double_space(name@));
            return false;
        }
        j = j + 1;
    }
    true
}

/// Whether a team name is acceptable.
pub fn validate_team_name(name: &String) -> (res: bool)
    ensures
        res == name_ok(name@),
{
    let s = name.as_str();
    if s.len() < 3 || s.len() > 20 {
        return false;
    }
    chars_ok(s)
}

/// Accepts a name, or refuses it as not acceptable (406) with `message`.
pub fn validate_name(name: &str, message: &str) -> (res: Result<(), ApiError>)
    ensures
        res is Ok <==> name_ok(name@),
        res matches Err(e) ==> e.status_code == NOT_ACCEPTABLE && e.message@ == message@,
{
    if name.len() < 3 || name.len() > 20 || !chars_ok(name) {
        return Err(ApiError { status_code: NOT_ACCEPTABLE, message: String::from_str(message) });
    }
    Ok(())
}

/// A password must have at least 6 bytes; a shorter one is a bad request.
pub fn validate_password(password: &str) -> (res: Result<(), ApiError>)
    ensures
        res is Ok <==> byte_len(password@) >= 6,
        res matches Err(e) ==> e.status_code == BAD_REQUEST && e.message@
            == "Password must be at least 6 characters"@,
{
    if password.len() < 6 {
        return Err(
            ApiError {
                status_code: BAD_REQUEST,
                message: String::from_str("Password must be at least 6 characters"),
            },
        );
    }
    Ok(())
}

/// The profile fields a user sends.
pub struct UpdateProfileRequest {
    pub display_name: String,
    pub first_name: String,
    pub last_name: String,
    pub country: Option<String>,
    pub school: String,
}

/// Checks the first name, last name, school and display name in this order
/// and refuses the first that is not a valid name.
pub fn validate_update_profile_request(body: &UpdateProfileRequest) -> (res: Result<(), ApiError>)
    ensures
        res is Ok <==> name_ok(body.first_name@) && name_ok(body.last_name@)
            && name_ok(body.school@) && name_ok(body.display_name@),
        res matches Err(e) ==> e.status_code == NOT_ACCEPTABLE && e.message@ == (if !name_ok(body.first_name@) {
            "Invalid first name. It must be at most 20 characters and cannot contain consecutive spaces."@
        } else if !name_ok(body.last_name@) {
            "Invalid last name. It must be at most 20 characters and cannot contain consecutive spaces."@
        } else if !name_ok(body.school@) {
            "Invalid school name. It must be at most 20 characters and cannot contain consecutive spaces."@
        } else {
            "Invalid display name. It must be at most 20 characters and cannot contain consecutive spaces."@
        }),
{
    validate_name(
        body.first_name.as_str(),
        "Invalid first name. It must be at most 20 characters and cannot contain consecutive spaces.",
    )?;
    validate_name(
        body.last_name.as_str(),
        "Invalid last name. It must be at most 20 characters and cannot contain consecutive spaces.",
    )?;
    validate_name(
        body.school.as_str(),
        "Invalid school name. It must be at most 20 characters and cannot contain consecutive spaces.",
    )?;
    validate_name(
        body.display_name.as_str(),
        "Invalid display name. It must be at most 20 characters and cannot contain consecutive spaces.",
    )?;
    Ok(())
}

// ------------------------------------------------------------------
// Emails, links and sessions
// ------------------------------------------------------------------

/// Where the first '@' of `s` is, or its length if there is none.
pub open spec fn first_at(s: Seq<char>) -> int {
    if exists|i: int| 0 <= i < s.len() && s[i] == '@' {
        choose|i: int|
            0 <= i < s.len() && s[i] == '@' && forall|j: int| 0 <= j < i ==> #[trigger] s[j] != '@'
    } else {
        s.len() as int
    }
}

/// The display name a new account gets: its email up to the first '@'.
pub fn get_display_name_from_email(email: &str) -> (res: String)
    ensures
        res@ == email@.subrange(0, first_at(email@)),
{
    let n = email.unicode_len();
    let mut i: usize = 0;
    while i < n && email.get_char(i) != '@'
        invariant
            n == email@.len(),
            i <= n,
            forall|j: int| 0 <= j < i ==> #[trigger] email@[j] != '@',
        decreases n - i,
    {
        i = i + 1;
    }
    proof {
        if i < n {
            assert(email@[i as int] == '@');
            let w = choose|w: int|
                0 <= w < email@.len() && email@[w] == '@' && forall|j: int|
                    0 <= j < w ==> #[trigger] email@[j] != '@';
            assert(w == i) by {
                if w < i {
                    assert(email@[w] != '@');
                }
                if w > i {
                    assert(email@[i as int] != '@');
                }
            }
        } else {
            assert(!exists|k: int| 0 <= k < email@.len() && email@[k] == '@');
        }
    }
    String::from_str(email.substring_char(0, i))
}

/// Where Microsoft sends users back after they log in.
pub fn microsoft_redirect_uri(website_origin: &str) -> (res: String)
    ensures
        res@ == website_origin@ + "/login/microsoft"@,
{
    proof {
        reveal_strlit("/");
        reveal_strlit("login/microsoft");
        reveal_strlit("/login/microsoft");
    }
    let mut s = String::from_str(website_origin);
    s.append("/");
    s.append("login/microsoft");
    s
}

/// Where Google sends users back after they log in.
pub fn google_redirect_uri(website_origin: &str) -> (res: String)
    ensures
        res@ == website_origin@ + "/login/google"@,
{
    proof {
        reveal_strlit("/");
        reveal_strlit("login/google");
        reveal_strlit("/login/google");
    }
    let mut s = String::from_str(website_origin);
    s.append("/");
    s.append("login/google");
    s
}

/// The answer given to a user who signs out.
pub fn signout_response() -> (res: SignoutResponse)
    ensures
        res.message@ == "You have been signed out."@,
        res.message_type@ == "success"@,
{
    SignoutResponse {
        message: String::from_str("You have been signed out."),
        message_type: String::from_str("success"),
    }
}

/// The CSS class of the "manage team" link of the top navigation bar: it is
/// marked selected on the team page.
pub fn manage_team_nav_class(location: NavLocation) -> (res: String)
    ensures
        res@ == (if location == NavLocation::ManageTeam {
            "nav-item selectable selected"@
        } else {
            "nav-item selectable "@
        }),
{
    proof {
        reveal_strlit("nav-item selectable ");
        reveal_strlit("selected");
        reveal_strlit("nav-item selectable selected");
    }
    let mut s = String::from_str("nav-item selectable ");
    if location == NavLocation::ManageTeam {
        s.append("selected");
    }
    s
}


// ------------------------------------------------------------------
// Login links
// ------------------------------------------------------------------

/// The bytes `application/x-www-form-urlencoded` leaves as they are.
pub open spec fn form_unchanged(b: u8) -> bool {
    b == 42 || b == 45 || b == 46 || (48 <= b <= 57) || (65 <= b <= 90) || b == 95 || (97 <= b
        <= 122)
}

pub open spec fn hex_upper(d: int) -> char {
    if d < 10 {
        ((d + 48) as u32) as char
    } else {
        ((d + 55) as u32) as char
    }
}

/// How one byte is written: unchanged, '+' for a space, '%' and two
/// upper-case hex digits otherwise.
pub open spec fn form_byte(b: u8) -> Seq<char> {
    if form_unchanged(b) {
        seq![(b as u32) as char]
    } else if b == 32 {
        seq!['+']
    } else {
        seq!['%', hex_upper(b as int / 16), hex_upper(b as int % 16)]
    }
}

/// The form-urlencoded text of a byte string.
pub open spec fn form_urlencoded(bytes: Seq<u8>) -> Seq<char>
    decreases bytes.len(),
{
    if bytes.len() == 0 {
        Seq::empty()
    } else {
        form_urlencoded(bytes.drop_last()) + form_byte(bytes.last())
    }
}

/// Calls `url::form_urlencoded::byte_serialize` on the UTF-8 bytes of `s`
/// and collects the pieces: each byte is written as `form_byte` says.
#[verifier::external_body]
fn byte_serialize(s: &str) -> (res: String)
    ensures
        res@ == form_urlencoded(encode_utf8(s@)),
{
    url::form_urlencoded::byte_serialize(s.as_bytes()).collect::<String>()
}

/// Encodes text for a query string in the form-urlencoded way.
pub fn url_encode(s: &str) -> (res: String)
    ensures
        res@ == form_urlencoded(encode_utf8(s@)),
{
    byte_serialize(s)
}

/// Appends the form-encoded text of `s`.
pub fn encode_form(out: &mut String, s: &str)
    ensures
        final(out)@ == old(out)@ + form_urlencoded(encode_utf8(s@)),
{
    let e = url_encode(s);
    out.append(e.as_str());
}

/// The address that starts a Microsoft login: the app's client id, where
/// Microsoft sends the user back, and the page to return to afterwards.
pub fn microsoft_login_url(client_id: &str, redirect_uri: &str, return_to: &str) -> (res: String)
    ensures
        res@ == "https://login.microsoftonline.com/common/oauth2/v2.0/authorize?client_id="@
            + client_id@ + "&response_type=code&redirect_uri="@ + form_urlencoded(
            encode_utf8(redirect_uri@),
        ) + "&response_mode=query&scope=User.Read&state="@ + form_urlencoded(
            encode_utf8(return_to@),
        ) + "&prompt=select_account"@,
{
    proof {
        reveal_strlit("https://login.microsoftonline.com/common/oauth2/v2.0/authorize?client_id=");
        reveal_strlit("&response_type=code&redirect_uri=");
        reveal_strlit("&response_mode=query&scope=User.Read&state=");
        reveal_strlit("&prompt=select_account");
    }
    let mut s = String::from_str(
        "https://login.microsoftonline.com/common/oauth2/v2.0/authorize?client_id=",
    );
    s.append(client_id);
    s.append("&response_type=code&redirect_uri=");
    let r = url_encode(redirect_uri);
    s.append(r.as_str());
    s.append("&response_mode=query&scope=User.Read&state=");
    let t = url_encode(return_to);
    s.append(t.as_str());
    s.append("&prompt=select_account");
    s
}

/// Where a login request is sent: Microsoft logins go to the Microsoft
/// login address, returning to `state` or else to the team page; any other
/// provider is not found (`None`).
pub fn login_provider_redirect(
    provider: &str,
    state: Option<String>,
    client_id: &str,
    redirect_uri: &str,
) -> (res: Option<String>)
    ensures
        provider@ == "microsoft"@ ==> (res matches Some(url) && url@
            == "https://login.microsoftonline.com/common/oauth2/v2.0/authorize?client_id="@
            + client_id@ + "&response_type=code&redirect_uri="@ + form_urlencoded(
            encode_utf8(redirect_uri@),
        ) + "&response_mode=query&scope=User.Read&state="@ + form_urlencoded(
            encode_utf8(
                match state {
                    Some(st) => st@,
                    None => "/manage-team"@,
                },
            ),
        ) + "&prompt=select_account"@),
        provider@ != "microsoft"@ ==> res is None,
{
    proof {
        reveal_strlit("microsoft");
    }
    if !same_text(provider, "microsoft") {
        return None;
    }
    let target = match state {
        Some(st) => st,
        None => String::from_str("/manage-team"),
    };
    Some(microsoft_login_url(client_id, redirect_uri, target.as_str()))
}

pub(crate) fn same_text(a: &str, b: &str) -> (res: bool)
    ensures
        res == (a@ == b@),
{
    let n = a.unicode_len();
    if n != b.unicode_len() {
        return false;
    }
    let mut i: usize = 0;
    while i < n
        invariant
            n == a@.len(),
            n == b@.len(),
            i <= n,
            forall|j: int| 0 <= j < i ==> a@[j] == b@[j],
        decreases n - i,
    {
        if a.get_char(i) != b.get_char(i) {
            return false;
        }
        i = i + 1;
    }
    assert(a@ =~= b@);
    true
}

} // verus!
