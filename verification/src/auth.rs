//! Who may send reports and who may read them.

use crate::text::{
    ascii_lower, begins_with_text, chars_of, drop_trailing, is_whitespace, opt_view, part,
    same_chars, same_text, starts_with, text_of, to_ascii_lower, trim, trimmed,
    white_space_is_trimmed,
};
use vstd::prelude::*;

verus! {

/// What the settings say about tokens, each as the text in which it was given.
pub struct AuthSettings {
    pub report_token: Option<String>,
    pub report_auth_required: Option<String>,
    pub dashboard_token: Option<String>,
    pub read_auth_required: Option<String>,
}

/// Why a request is refused.
#[derive(Clone, Copy, Debug, PartialEq, Eq, Structural)]
pub enum AuthFailure {
    /// A token is needed and none is configured.
    ServiceUnavailable,
    /// The request does not carry the token.
    Unauthorized,
}

/// A token without surrounding space, none where nothing is left.
pub open spec fn token_in(setting: Option<Seq<char>>) -> Option<Seq<char>> {
    match setting {
        Some(s) => if trim(s).len() > 0 {
            Some(trim(s))
        } else {
            None
        },
        None => None,
    }
}

/// A switch that is on unless it is set to `false` or `0`.
pub open spec fn not_switched_off(setting: Seq<char>) -> bool {
    setting != "false"@ && setting != "0"@
}

fn token_of(setting: &Option<String>) -> (r: Option<String>)
    ensures
        opt_view(r) == token_in(opt_view(*setting)),
{
    match setting {
        Some(s) => {
            let v = chars_of(s.as_str());
            let t = trimmed(v.as_slice());
            if t.len() > 0 {
                Some(text_of(t))
            } else {
                None
            }
        },
        None => None,
    }
}

impl AuthSettings {
    /// The token that reports carry.
    pub open spec fn report_token_in(self) -> Option<Seq<char>> {
        token_in(opt_view(self.report_token))
    }

    /// The token that readers carry: that for reports where there is no other.
    pub open spec fn read_token_in(self) -> Option<Seq<char>> {
        match token_in(opt_view(self.dashboard_token)) {
            Some(t) => Some(t),
            None => self.report_token_in(),
        }
    }

    /// Reports need a token unless that is switched off.
    pub open spec fn report_needs_token(self) -> bool {
        match self.report_auth_required {
            Some(v) => not_switched_off(v@),
            None => true,
        }
    }

    /// Readers need a token where that is not switched off; where nothing is set, they do if there
    /// is a token.
    pub open spec fn read_needs_token(self) -> bool {
        match self.read_auth_required {
            Some(v) => not_switched_off(v@),
            None => self.read_token_in() is Some,
        }
    }

    /// The token that reports carry.
    pub fn report_token(&self) -> (r: Option<String>)
        ensures
            opt_view(r) == self.report_token_in(),
    {
        token_of(&self.report_token)
    }

    /// The token that readers carry.
    pub fn dashboard_token(&self) -> (r: Option<String>)
        ensures
            opt_view(r) == self.read_token_in(),
    {
        match token_of(&self.dashboard_token) {
            Some(t) => Some(t),
            None => self.report_token(),
        }
    }

    /// Whether reports need a token.
    pub fn report_auth_required(&self) -> (r: bool)
        ensures
            r == self.report_needs_token(),
    {
        match &self.report_auth_required {
            Some(v) => !same_text(v.as_str(), "false") && !same_text(v.as_str(), "0"),
            None => true,
        }
    }

    /// Whether readers need a token.
    pub fn read_auth_required(&self) -> (r: bool)
        ensures
            r == self.read_needs_token(),
    {
        match &self.read_auth_required {
            Some(v) => !same_text(v.as_str(), "false") && !same_text(v.as_str(), "0"),
            None => self.dashboard_token().is_some(),
        }
    }

    /// Checks whether a request may report.
    pub fn validate_report_auth(&self, header: Option<&str>) -> (r: Result<(), AuthFailure>)
        ensures
            r == verdict_on_request(
                match header {
                    Some(h) => Some(h@),
                    None => None,
                },
                self.report_token_in(),
                self.report_needs_token(),
            ),
    {
        validate_bearer_auth(header, self.report_token(), self.report_auth_required())
    }

    /// Checks whether a request may read.
    pub fn validate_read_auth(&self, header: Option<&str>) -> (r: Result<(), AuthFailure>)
        ensures
            r == verdict_on_request(
                match header {
                    Some(h) => Some(h@),
                    None => None,
                },
                self.read_token_in(),
                self.read_needs_token(),
            ),
    {
        validate_bearer_auth(header, self.dashboard_token(), self.read_auth_required())
    }
}

/// The token in an authorization header: what follows `Bearer `, or the whole header.
pub open spec fn carried_token(header: Seq<char>) -> Seq<char> {
    trim(
        if starts_with(header, "Bearer "@) {
            header.skip(7)
        } else {
            header
        },
    )
}

/// Whether a request passes. Where no token is configured it does unless one is needed; else it
/// does exactly if it carries the token.
pub open spec fn verdict_on_request(
    header: Option<Seq<char>>,
    expected: Option<Seq<char>>,
    required: bool,
) -> Result<(), AuthFailure> {
    match expected {
        None => if required {
            Err(AuthFailure::ServiceUnavailable)
        } else {
            Ok(())
        },
        Some(token) => match header {
            Some(h) => if carried_token(h) == token {
                Ok(())
            } else {
                Err(AuthFailure::Unauthorized)
            },
            None => Err(AuthFailure::Unauthorized),
        },
    }
}

/// Checks the authorization header of a request against the token that is expected.
pub fn validate_bearer_auth(
    header: Option<&str>,
    expected: Option<String>,
    required: bool,
) -> (r: Result<(), AuthFailure>)
    ensures
        r == verdict_on_request(
            match header {
                Some(h) => Some(h@),
                None => None,
            },
            opt_view(expected),
            required,
        ),
{
    let token = match expected {
        Some(t) => t,
        None => {
            return if required {
                Err(AuthFailure::ServiceUnavailable)
            } else {
                Ok(())
            };
        },
    };
    match header {
        None => Err(AuthFailure::Unauthorized),
        Some(h) => {
            let v = chars_of(h);
            let rest = if begins_with_text(v.as_slice(), "Bearer ") {
                proof {
                    reveal_strlit("Bearer ");
                    assert(v@.subrange(7, v@.len() as int) =~= v@.skip(7));
                }
                part(v.as_slice(), 7, v.len())
            } else {
                v.as_slice()
            };
            let want = chars_of(token.as_str());
            if same_chars(trimmed(rest), want.as_slice()) {
                Ok(())
            } else {
                Err(AuthFailure::Unauthorized)
            }
        },
    }
}

/// With a token configured a request passes exactly if it carries the token, whether or not one is
/// needed.
pub proof fn token_decides(header: Option<Seq<char>>, token: Seq<char>, required: bool)
    ensures
        verdict_on_request(header, Some(token), required) is Ok <==> (header matches Some(h)
            && carried_token(h) == token),
{
}

/// Without a report token every report is refused, unless that is switched off.
pub proof fn no_token_no_reports(settings: AuthSettings, header: Option<Seq<char>>)
    requires
        settings.report_token_in() is None,
        settings.report_needs_token(),
    ensures
        verdict_on_request(header, settings.report_token_in(), settings.report_needs_token())
            == Err::<(), AuthFailure>(AuthFailure::ServiceUnavailable),
{
}

/// A switch in the environment is on for `1`, `true`, `yes`, `y` and `on`, in any case.
pub open spec fn is_on(value: Seq<char>) -> bool {
    let v = ascii_lower(trim(value));
    v == "1"@ || v == "true"@ || v == "yes"@ || v == "y"@ || v == "on"@
}

/// Whether a switch in the environment is on.
pub fn env_flag(value: &Option<String>) -> (r: bool)
    ensures
        r == (value matches Some(v) && is_on(v@)),
{
    match value {
        None => false,
        Some(s) => {
            let v = chars_of(s.as_str());
            let low = to_ascii_lower(trimmed(v.as_slice()));
            let word = text_of(low.as_slice());
            let w = word.as_str();
            same_text(w, "1") || same_text(w, "true") || same_text(w, "yes") || same_text(w, "y")
                || same_text(w, "on")
        },
    }
}

/// A token is carried after `Bearer ` or alone, and white space around it does not count.
pub proof fn tokens_are_carried_in_either_form(token: Seq<char>)
    requires
        token.len() > 0,
        !is_whitespace(token[0]),
        !is_whitespace(token.last()),
    ensures
        carried_token("Bearer "@ + token) == token,
        carried_token("Bearer "@ + token + " "@) == token,
        !starts_with(token, "Bearer "@) ==> carried_token(token) == token,
        !starts_with(token, "Bearer "@) && token != "Bearer"@ ==> carried_token(token + " "@)
            == token,
{
    reveal_strlit("Bearer ");
    reveal_strlit("Bearer");
    reveal_strlit(" ");
    let a = "Bearer "@ + token;
    let b = "Bearer "@ + token + " "@;
    let c = token + " "@;
    assert(a.take(7) =~= "Bearer "@);
    assert(a.skip(7) =~= token);
    assert(b.take(7) =~= "Bearer "@);
    assert(b.skip(7) =~= c);
    assert(is_whitespace(' '));
    assert(c[0] == token[0] && c.last() == ' ');
    assert(c.drop_last() =~= token);
    reveal_with_fuel(drop_trailing, 2);
    assert(trim(token) == token);
    assert(trim(c) == token);
    if starts_with(c, "Bearer "@) && !starts_with(token, "Bearer "@) {
        if token.len() >= 7 {
            assert(token.take(7) =~= c.take(7));
        } else {
            assert(c.take(7) =~= c);
            assert(c =~= "Bearer "@);
            assert(token =~= "Bearer "@.drop_last());
            assert("Bearer "@.drop_last() =~= "Bearer"@);
        }
    }
}

/// A request is answered in one of three ways: where a token is configured, it passes with the token
/// and is unauthorized without it; where none is, it passes unless one is needed, and then the
/// service is unavailable.
pub proof fn requests_are_answered_by_their_token(
    header: Option<Seq<char>>,
    expected: Option<Seq<char>>,
    required: bool,
)
    ensures
        ({
            let r = verdict_on_request(header, expected, required);
            &&& expected is None && !required ==> r is Ok
            &&& expected is None && required ==> r == Err::<(), AuthFailure>(
                AuthFailure::ServiceUnavailable,
            )
            &&& expected is Some && header is Some && carried_token(header->0) == expected->0
                ==> r is Ok
            &&& expected is Some && (header is None || carried_token(header->0) != expected->0)
                ==> r == Err::<(), AuthFailure>(AuthFailure::Unauthorized)
        }),
{
}

/// Readers carry the token for readers where there is one that is not blank, else the one for
/// reports; neither counts where it is blank, and white space around it does not count.
pub proof fn readers_fall_back_on_the_report_token(settings: AuthSettings)
    ensures
        settings.report_token is None || trim(settings.report_token->0@).len() == 0
            ==> settings.report_token_in() is None,
        settings.report_token is Some && trim(settings.report_token->0@).len() > 0
            ==> settings.report_token_in() == Some(trim(settings.report_token->0@)),
        settings.dashboard_token is Some && trim(settings.dashboard_token->0@).len() > 0
            ==> settings.read_token_in() == Some(trim(settings.dashboard_token->0@)),
        settings.dashboard_token is None || trim(settings.dashboard_token->0@).len() == 0
            ==> settings.read_token_in() == settings.report_token_in(),
{
}

/// Reports need a token unless that is set to `false` or `0`. Readers need one unless that is set to
/// `false` or `0`; where nothing is set, exactly if there is a token.
pub proof fn tokens_are_needed_unless_switched_off(settings: AuthSettings)
    ensures
        settings.report_auth_required is None ==> settings.report_needs_token(),
        settings.report_auth_required is Some ==> (settings.report_needs_token()
            <==> settings.report_auth_required->0@ != "false"@ && settings.report_auth_required->0@
            != "0"@),
        settings.read_auth_required is None ==> (settings.read_needs_token()
            <==> settings.read_token_in() is Some),
        settings.read_auth_required is Some ==> (settings.read_needs_token()
            <==> settings.read_auth_required->0@ != "false"@ && settings.read_auth_required->0@
            != "0"@),
{
}

/// Neither white space around a switch nor its case matters; it is on for five words and for no
/// others.
pub proof fn switches_are_on_for_five_words(value: Seq<char>)
    ensures
        is_on(value) <==> is_on(trim(value)),
        is_on(value) <==> {
            let v = ascii_lower(trim(value));
            v == "1"@ || v == "true"@ || v == "yes"@ || v == "y"@ || v == "on"@
        },
{
    let r = white_space_is_trimmed(value);
    assert(trim(trim(value)) == trim(value));
}

} // verus!
