//! The steps of signing in with Microsoft or Google: what is sent to the
//! provider, and what its answers decide.
use crate::accounts::{encode_form, form_urlencoded, url_encode, ApiError, BAD_REQUEST};
use crate::membership::{answers, UNAUTHORIZED};
use vstd::prelude::*;
use vstd::utf8::encode_utf8;

verus! {

pub open spec fn enc(s: Seq<char>) -> Seq<char> {
    form_urlencoded(encode_utf8(s))
}

fn refuse(code: u16, msg: &str) -> (e: ApiError)
    ensures
        e.status_code == code,
        e.message@ == msg@,
{
    ApiError { status_code: code, message: String::from_str(msg) }
}

/// The body that trades Microsoft's authorization code for a token; only
/// the redirect address is encoded.  Without a code the request is bad.
pub fn microsoft_token_body(code: &Option<String>, client_id: &str, redirect_uri: &str, secret: &str) -> (res: Result<String, ApiError>)
    ensures
        code is None <==> res is Err,
        res matches Err(e) ==> e.status_code == BAD_REQUEST && e.message@ == "No code provided"@,
        res matches Ok(body) ==> body@ == "code="@ + code->0@ + "&client_id="@ + client_id@
            + "&redirect_uri="@ + enc(redirect_uri@) + "&grant_type=authorization_code&client_secret="@
            + secret@,
{
    let c = match code {
        Some(c) => c,
        None => return Err(refuse(BAD_REQUEST, "No code provided")),
    };
    let mut body = String::from_str("code=");
    body.append(c.as_str());
    body.append("&client_id=");
    body.append(client_id);
    body.append("&redirect_uri=");
    let r = url_encode(redirect_uri);
    body.append(r.as_str());
    body.append("&grant_type=authorization_code&client_secret=");
    body.append(secret);
    Ok(body)
}

/// The form that trades Google's authorization code for a token: every
/// name and value is form-encoded.  Without a code the request is bad.
pub fn google_token_form(code: &Option<String>, client_id: &str, redirect_uri: &str, secret: &str) -> (res: Result<String, ApiError>)
    ensures
        code is None <==> res is Err,
        res matches Err(e) ==> e.status_code == BAD_REQUEST && e.message@ == "No code provided"@,
        res matches Ok(body) ==> body@ == "code="@ + enc(code->0@) + "&client_id="@ + enc(client_id@)
            + "&redirect_uri="@ + enc(redirect_uri@) + "&grant_type="@ + enc("authorization_code"@)
            + "&client_secret="@ + enc(secret@),
{
    let c = match code {
        Some(c) => c,
        None => return Err(refuse(BAD_REQUEST, "No code provided")),
    };
    let mut body = String::from_str("code=");
    encode_form(&mut body, c.as_str());
    body.append("&client_id=");
    encode_form(&mut body, client_id);
    body.append("&redirect_uri=");
    encode_form(&mut body, redirect_uri);
    body.append("&grant_type=");
    encode_form(&mut body, "authorization_code");
    body.append("&client_secret=");
    encode_form(&mut body, secret);
    Ok(body)
}

/// A provider's answer without an access token refuses the sign-in with
/// `message`.
pub fn access_token_check(token: &Option<String>, message: &str) -> (res: Result<(), ApiError>)
    ensures
        answers(res, if token is Some { None } else { Some((UNAUTHORIZED, message@)) }),
{
    if token.is_none() {
        return Err(refuse(UNAUTHORIZED, message));
    }
    Ok(())
}

/// The address where Google tells who holds an access token.
pub fn google_userinfo_url(token: &str) -> (res: String)
    ensures
        res@ == "https://www.googleapis.com/oauth2/v3/userinfo?access_token="@ + token@,
{
    let mut s = String::from_str("https://www.googleapis.com/oauth2/v3/userinfo?access_token=");
    s.append(token);
    s
}

/// The account of a Microsoft sign-in is its user principal name; an
/// account without one cannot sign in.
pub fn microsoft_account_email(upn: Option<String>) -> (res: Result<String, ApiError>)
    ensures
        upn is None <==> res is Err,
        res matches Err(e) ==> e.status_code == UNAUTHORIZED && e.message@ == "No UPN on selected account"@,
        res matches Ok(email) ==> email@ == upn->0@,
{
    match upn {
        Some(u) => Ok(u),
        None => Err(refuse(UNAUTHORIZED, "No UPN on selected account")),
    }
}

/// The account of a Google sign-in is its email, which Google must have
/// verified.
pub fn google_account_email(email: Option<String>, email_verified: Option<bool>) -> (res: Result<String, ApiError>)
    ensures
        res is Ok <==> (email is Some && email_verified == Some(true)),
        res matches Err(e) ==> e.status_code == UNAUTHORIZED && e.message@
            == "Invalid response from Google OAuth"@,
        res matches Ok(addr) ==> addr@ == email->0@,
{
    let verified = match email_verified {
        Some(v) => v,
        None => false,
    };
    match email {
        Some(e) => {
            if verified {
                Ok(e)
            } else {
                Err(refuse(UNAUTHORIZED, "Invalid response from Google OAuth"))
            }
        },
        None => Err(refuse(UNAUTHORIZED, "Invalid response from Google OAuth")),
    }
}

/// The name shown for a Microsoft account: its display name, else its
/// given name, else its email.
pub fn login_display_name(display_name: Option<String>, given_name: Option<String>, mail: String) -> (res: String)
    ensures
        res@ == (match display_name {
            Some(d) => d@,
            None => match given_name {
                Some(g) => g@,
                None => mail@,
            },
        }),
{
    match display_name {
        Some(d) => d,
        None => match given_name {
            Some(g) => g,
            None => mail,
        },
    }
}

/// Where a finished sign-in leads: back to `state` (the team page when
/// there is none) when a token was received, home otherwise.
pub fn after_login_location(got_token: bool, state: Option<String>) -> (res: String)
    ensures
        res@ == (if !got_token {
            "/"@
        } else {
            match state {
                Some(s) => s@,
                None => "/manage-team"@,
            }
        }),
{
    if !got_token {
        return String::from_str("/");
    }
    match state {
        Some(s) => s,
        None => String::from_str("/manage-team"),
    }
}

} // verus!
