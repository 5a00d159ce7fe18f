//! Credentials and the sources that provide them.

use crate::text::same_text;
use vstd::prelude::*;
use vstd::string::*;

verus! {

/// A user name and the secret that goes with it.
pub struct Credential {
    pub user: String,
    pub password: String,
}

/// A credential as a mathematical value.
pub struct CredentialView {
    pub user: Seq<char>,
    pub password: Seq<char>,
}

impl View for Credential {
    type V = CredentialView;

    open spec fn view(&self) -> CredentialView {
        CredentialView { user: self.user@, password: self.password@ }
    }
}

/// Why a source has no credential for a host. The dispatcher hands the
/// reason on and does not read it.
#[derive(Debug)]
pub struct SourceError {
    pub reason: String,
}

impl View for SourceError {
    type V = Seq<char>;

    open spec fn view(&self) -> Seq<char> {
        self.reason@
    }
}

/// What a source answered, as a mathematical value.
pub open spec fn answer_view(answer: Result<Credential, SourceError>) -> Result<
    CredentialView,
    Seq<char>,
> {
    match answer {
        Ok(credential) => Ok(credential@),
        Err(cause) => Err(cause@),
    }
}

/// A source of credentials: for a host it has a credential, or a reason why
/// it has none.
pub trait Provide {
    /// Whether `answer` is an answer that this source may give for `host`.
    /// A source that says nothing here may give any answer.
    open spec fn answers(
        &self,
        host: Seq<char>,
        answer: Result<CredentialView, Seq<char>>,
    ) -> bool {
        true
    }

    /// The credential for `host`.
    fn provide_by_host(&self, host: &str) -> (answer: Result<Credential, SourceError>)
        ensures
            self.answers(host@, answer_view(answer)),
    ;
}

/// The source that answers for `github.com` from two environment variables,
/// `GITHUB_USER` and `GITHUB_TOKEN`. It holds their values as they were read
/// when it was made; `None` stands for a variable that is not set.
pub struct EnvProvider {
    pub github_user: Option<String>,
    pub github_token: Option<String>,
}

impl EnvProvider {
    /// The answer for `host`: only `github.com` is served, and both
    /// variables have to be set.
    pub open spec fn resolved(&self, host: Seq<char>) -> Result<CredentialView, Seq<char>> {
        if host != "github.com"@ {
            Err("currently only github.com supported"@)
        } else if self.github_user is None {
            Err("environment variable GITHUB_USER required"@)
        } else if self.github_token is None {
            Err("environment variable GITHUB_TOKEN required"@)
        } else {
            Ok(
                CredentialView {
                    user: self.github_user->Some_0@,
                    password: self.github_token->Some_0@,
                },
            )
        }
    }
}

impl Provide for EnvProvider {
    open spec fn answers(
        &self,
        host: Seq<char>,
        answer: Result<CredentialView, Seq<char>>,
    ) -> bool {
        answer == self.resolved(host)
    }

    fn provide_by_host(&self, host: &str) -> (answer: Result<Credential, SourceError>)
        ensures
            answer_view(answer) == self.resolved(host@),
    {
        if !same_text(host, "github.com") {
            return Err(SourceError { reason: "currently only github.com supported".to_owned() });
        }
        let user = match &self.github_user {
            Some(user) => user.clone(),
            None => {
                return Err(
                    SourceError { reason: "environment variable GITHUB_USER required".to_owned() },
                );
            },
        };
        let token = match &self.github_token {
            Some(token) => token.clone(),
            None => {
                return Err(
                    SourceError { reason: "environment variable GITHUB_TOKEN required".to_owned() },
                );
            },
        };
        Ok(Credential { user, password: token })
    }
}

} // verus!
