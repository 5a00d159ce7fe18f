//! One request, from the verb and the text that git sends to the text that
//! goes back.

use crate::credential::{
    answer_view, Credential, CredentialView, EnvProvider, Provide, SourceError,
};
use crate::log::{Log, NopLogger};
use crate::parse::{
    all_well_formed, decoded, encode, encoded, lemma_known_keys, parse_git_credential_attributes,
    valid_value, AttributeView, GitCredentialAttribute, ProtocolError,
};
use crate::text::same_text;
use vstd::prelude::*;
use vstd::string::*;

verus! {

/// What git asks of a helper. A verb that names none of these is not an
/// error: the helper is to ignore it.
#[derive(Debug, Clone, Copy, PartialEq, Eq, Structural)]
pub enum Operation {
    Get,
    Store,
    Erase,
}

impl Operation {
    /// The operation that a verb names, if it names one: `get`, `store` and
    /// `erase`, written exactly so.
    pub open spec fn named(verb: Seq<char>) -> Option<Operation> {
        if verb == "get"@ {
            Some(Operation::Get)
        } else if verb == "store"@ {
            Some(Operation::Store)
        } else if verb == "erase"@ {
            Some(Operation::Erase)
        } else {
            None
        }
    }

    /// The operation that `s` names, or `s` again where it names none.
    pub fn from_str(s: &str) -> (r: Result<Operation, String>)
        ensures
            match r {
                Ok(operation) => Operation::named(s@) == Some(operation),
                Err(verb) => Operation::named(s@) is None && verb@ == s@,
            },
    {
        if same_text(s, "get") {
            Ok(Operation::Get)
        } else if same_text(s, "store") {
            Ok(Operation::Store)
        } else if same_text(s, "erase") {
            Ok(Operation::Erase)
        } else {
            Err(s.to_owned())
        }
    }
}

/// Why a request was not answered.
#[derive(Debug)]
pub enum DispatchError {
    /// The text is no request, or the credential cannot be written as
    /// lines. `input` is the text of the request as it came.
    Protocol { error: ProtocolError, input: String },
    /// The request names no host.
    MissingHost,
    /// The source has no credential for the host.
    SourceUnavailable(SourceError),
}

/// A `DispatchError` as a mathematical value.
pub enum DispatchErrorView {
    Protocol { error: ProtocolError, input: Seq<char> },
    MissingHost,
    SourceUnavailable(Seq<char>),
}

impl View for DispatchError {
    type V = DispatchErrorView;

    open spec fn view(&self) -> DispatchErrorView {
        match self {
            DispatchError::Protocol { error, input } => DispatchErrorView::Protocol {
                error: *error,
                input: input@,
            },
            DispatchError::MissingHost => DispatchErrorView::MissingHost,
            DispatchError::SourceUnavailable(cause) => DispatchErrorView::SourceUnavailable(cause@),
        }
    }
}

/// The outcome of a request, as a mathematical value.
pub open spec fn outcome_view(outcome: Result<String, DispatchError>) -> Result<
    Seq<char>,
    DispatchErrorView,
> {
    match outcome {
        Ok(text) => Ok(text@),
        Err(error) => Err(error@),
    }
}

/// The value of the first `Host` among the attributes.
pub open spec fn first_host(attributes: Seq<AttributeView>) -> Option<Seq<char>>
    decreases attributes.len(),
{
    if attributes.len() == 0 {
        None
    } else if let AttributeView::Host(host) = attributes[0] {
        Some(host)
    } else {
        first_host(attributes.drop_first())
    }
}

/// The two lines that carry a credential: `username`, then `password`.
pub open spec fn credential_lines(credential: CredentialView) -> Seq<AttributeView> {
    seq![AttributeView::Username(credential.user), AttributeView::Password(credential.password)]
}

/// What goes back for the request in `input` once the source has answered:
/// the two lines of the credential; the reason of the source, where it gave
/// one; and no text at all where the user name or the secret holds a line
/// feed or a NUL.
pub open spec fn response(input: Seq<char>, answer: Result<CredentialView, Seq<char>>) -> Result<
    Seq<char>,
    DispatchErrorView,
> {
    match answer {
        Err(cause) => Err(DispatchErrorView::SourceUnavailable(cause)),
        Ok(credential) => if valid_value(credential.user) && valid_value(credential.password) {
            Ok(encoded(credential_lines(credential)))
        } else {
            Err(DispatchErrorView::Protocol { error: ProtocolError::Malformed, input })
        },
    }
}

/// The first `Host` among the attributes found so far decides.
proof fn lemma_first_host_push(attributes: Seq<AttributeView>, last: AttributeView)
    ensures
        first_host(attributes.push(last)) == match first_host(attributes) {
            Some(host) => Some(host),
            None => first_host(seq![last]),
        },
    decreases attributes.len(),
{
    if attributes.len() == 0 {
        assert(attributes.push(last) =~= seq![last]);
    } else {
        assert(attributes.push(last).drop_first() =~= attributes.drop_first().push(last));
        lemma_first_host_push(attributes.drop_first(), last);
    }
}

/// The value of the first `Host` among the attributes.
pub fn find_host(attributes: &Vec<GitCredentialAttribute>) -> (r: Option<String>)
    ensures
        match r {
            Some(host) => first_host(attributes.deep_view()) == Some(host@),
            None => first_host(attributes.deep_view()) is None,
        },
{
    let ghost all = attributes.deep_view();
    let mut i: usize = 0;
    assert(all.take(0) =~= Seq::<AttributeView>::empty());
    while i < attributes.len()
        invariant
            i <= attributes.len(),
            all == attributes.deep_view(),
            first_host(all.take(i as int)) is None,
        decreases attributes.len() - i,
    {
        proof {
            assert(all.take(i + 1) =~= all.take(i as int).push(all[i as int]));
            lemma_first_host_push(all.take(i as int), all[i as int]);
            assert(seq![all[i as int]].drop_first() =~= Seq::<AttributeView>::empty());
            assert(all.take(attributes.len() as int) =~= all);
        }
        if let GitCredentialAttribute::Host(host) = &attributes[i] {
            proof {
                assert(first_host(all.take(i + 1)) == Some(host@));
                lemma_first_host_prefix(all, i + 1);
            }
            return Some(host.clone());
        }
        proof {
            assert(all[i as int] == attributes@[i as int]@);
            assert(first_host(Seq::<AttributeView>::empty()) is None);
            assert(first_host(seq![all[i as int]]) is None);
        }
        i += 1;
    }
    assert(all.take(i as int) =~= all);
    None
}

/// A `Host` found among the first attributes is the first `Host` of all.
proof fn lemma_first_host_prefix(attributes: Seq<AttributeView>, n: int)
    requires
        0 <= n <= attributes.len(),
        first_host(attributes.take(n)) is Some,
    ensures
        first_host(attributes) == first_host(attributes.take(n)),
    decreases attributes.len() - n,
{
    if n < attributes.len() {
        assert(attributes.take(n + 1) =~= attributes.take(n).push(attributes[n]));
        lemma_first_host_push(attributes.take(n), attributes[n]);
        lemma_first_host_prefix(attributes, n + 1);
    } else {
        assert(attributes.take(n) =~= attributes);
    }
}

/// Turns the answer of a source into what goes back to git: the line
/// `username` and the line `password`, in this order and with nothing after
/// them.
///
/// Fails with `SourceUnavailable`, which carries the reason, where the source
/// gave one, and with `Protocol`, which carries `input`, where the user name
/// or the secret holds a line feed or a NUL: nothing is written then.
pub fn respond(answer: Result<Credential, SourceError>, input: &str) -> (r: Result<
    String,
    DispatchError,
>)
    ensures
        outcome_view(r) == response(input@, answer_view(answer)),
{
    match answer {
        Err(cause) => Err(DispatchError::SourceUnavailable(cause)),
        Ok(credential) => {
            let ghost lines = credential_lines(credential@);
            let attributes = vec![
                GitCredentialAttribute::Username(credential.user),
                GitCredentialAttribute::Password(credential.password),
            ];
            proof {
                lemma_known_keys();
                assert(attributes.deep_view() =~= lines);
                if valid_value(credential@.user) && valid_value(credential@.password) {
                    assert(all_well_formed(lines));
                } else {
                    assert(!lines[0].well_formed() || !lines[1].well_formed());
                }
            }
            match encode(&attributes) {
                Ok(text) => Ok(text),
                Err(error) => Err(DispatchError::Protocol { error, input: input.to_owned() }),
            }
        },
    }
}

/// The helper: a logger and a source of credentials.
pub struct Operator<L, P> {
    logger: L,
    provider: P,
}

impl Operator<NopLogger, EnvProvider> {
    /// An operator that logs nothing and knows no environment variable.
    /// `with_provider` gives it the variables that were read, or another
    /// source.
    pub fn new() -> (r: Operator<NopLogger, EnvProvider>)
        ensures
            r.provider() == (EnvProvider { github_user: None, github_token: None }),
    {
        Operator {
            logger: NopLogger,
            provider: EnvProvider { github_user: None, github_token: None },
        }
    }
}

impl Default for Operator<NopLogger, EnvProvider> {
    fn default() -> (r: Self)
        ensures
            r.provider() == (EnvProvider { github_user: None, github_token: None }),
    {
        Self::new()
    }
}

impl<L, P> Operator<L, P> where L: Log, P: Provide {
    /// The logger of this operator.
    pub closed spec fn logger(self) -> L {
        self.logger
    }

    /// The source of this operator.
    pub closed spec fn provider(self) -> P {
        self.provider
    }

    /// `outcome` is an outcome that a `get` may have on `input`:
    /// `Protocol` with `input` where `input` does not start with a request;
    /// `MissingHost` where the request has no `host` line; and else what
    /// `response` gives for an answer that the source may give for the host
    /// of the first `host` line.
    pub open spec fn gets(self, input: Seq<char>, outcome: Result<String, DispatchError>) -> bool {
        match decoded(input) {
            None => outcome_view(outcome) == Err::<Seq<char>, DispatchErrorView>(
                DispatchErrorView::Protocol { error: ProtocolError::Malformed, input },
            ),
            Some(attributes) => match first_host(attributes) {
                None => outcome_view(outcome) == Err::<Seq<char>, DispatchErrorView>(
                    DispatchErrorView::MissingHost,
                ),
                Some(host) => exists|answer: Result<CredentialView, Seq<char>>|
                    #![trigger self.provider().answers(host, answer)]
                    self.provider().answers(host, answer) && outcome_view(outcome) == response(
                        input,
                        answer,
                    ),
            },
        }
    }

    /// The same operator with another logger.
    pub fn with_logger<L2: Log>(self, logger: L2) -> (r: Operator<L2, P>)
        ensures
            r.logger() == logger,
            r.provider() == self.provider(),
    {
        Operator { logger, provider: self.provider }
    }

    /// The same operator with another source.
    pub fn with_provider<P2: Provide>(self, provider: P2) -> (r: Operator<L, P2>)
        ensures
            r.logger() == self.logger(),
            r.provider() == provider,
    {
        Operator { logger: self.logger, provider }
    }

    /// Answers a `get`: reads the request in `input`, asks the source for
    /// the credential of the first host in it, and returns the text that
    /// goes back, the line `username` and the line `password`. Where
    /// anything fails no text comes back. The operator stays as it is.
    pub fn get_credential(&mut self, input: &str) -> (r: Result<String, DispatchError>)
        ensures
            *final(self) == *old(self),
            old(self).gets(input@, r),
    {
        self.logger.log("credential helper invoked by git");
        let attributes = match parse_git_credential_attributes(input) {
            Ok(attributes) => attributes,
            Err(error) => {
                return Err(DispatchError::Protocol { error, input: input.to_owned() });
            },
        };
        self.logger.log("request parsed");
        let host = match find_host(&attributes) {
            Some(host) => host,
            None => {
                return Err(DispatchError::MissingHost);
            },
        };
        let answer = self.provider.provide_by_host(host.as_str());
        let ghost seen = answer_view(answer);
        let outcome = respond(answer, input);
        assert(self.provider().answers(first_host(decoded(input@)->Some_0)->Some_0, seen));
        outcome
    }

    /// Carries out one operation on the text that came with it. `get` is
    /// answered as `get_credential` does; `store` and `erase` do nothing and
    /// succeed with no text, whatever `input` holds and whatever the source
    /// would answer.
    pub fn handle(&mut self, operation: Operation, input: &str) -> (r: Result<
        String,
        DispatchError,
    >)
        ensures
            *final(self) == *old(self),
            operation is Get ==> old(self).gets(input@, r),
            !(operation is Get) ==> outcome_view(r) == Ok::<Seq<char>, DispatchErrorView>(
                Seq::empty(),
            ),
    {
        match operation {
            Operation::Get => self.get_credential(input),
            Operation::Store => Ok(String::new()),
            Operation::Erase => Ok(String::new()),
        }
    }

    /// Carries out what `verb` names, as `handle` does. A verb that names no
    /// operation is ignored: nothing is done, and that is a success with no
    /// text.
    pub fn dispatch(&mut self, verb: &str, input: &str) -> (r: Result<String, DispatchError>)
        ensures
            *final(self) == *old(self),
            Operation::named(verb@) == Some(Operation::Get) ==> old(self).gets(input@, r),
            Operation::named(verb@) != Some(Operation::Get) ==> outcome_view(r) == Ok::<
                Seq<char>,
                DispatchErrorView,
            >(Seq::empty()),
    {
        match Operation::from_str(verb) {
            Ok(operation) => self.handle(operation, input),
            Err(_) => Ok(String::new()),
        }
    }
}

} // verus!
