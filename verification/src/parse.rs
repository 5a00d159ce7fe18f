//! The attribute lines of the git credential protocol.
//!
//! A request is one or more lines `key=value`, each ended by a line feed,
//! and then one blank line. A response is such lines without the blank
//! line. A key holds one character or more, none of them `=`, a line feed or
//! NUL; a value holds any characters but line feed and NUL. Nothing is
//! escaped.

use crate::text::{
    is_stop, lemma_cut_unique, same_text, split_before_stop, stop_free, strip_char, LINE_FEED,
    NUL, SEPARATOR,
};
use vstd::prelude::*;
use vstd::string::*;

verus! {

/// One attribute of a credential, as it was read from a line or is to be
/// written to one.
#[derive(Debug, PartialEq)]
pub enum GitCredentialAttribute {
    Protocol(String),
    Host(String),
    Path(String),
    Username(String),
    Password(String),
    Url(String),
    /// Any other key, with its value.
    Etc(String, String),
}

/// Why text or attributes are not of the wire format.
#[derive(Debug, PartialEq, Eq, Clone, Copy)]
pub enum ProtocolError {
    /// The text is no record, or an attribute cannot be written as a line.
    Malformed,
}

/// An attribute as a mathematical value: its strings are sequences of
/// characters.
pub enum AttributeView {
    Protocol(Seq<char>),
    Host(Seq<char>),
    Path(Seq<char>),
    Username(Seq<char>),
    Password(Seq<char>),
    Url(Seq<char>),
    Etc(Seq<char>, Seq<char>),
}

impl View for GitCredentialAttribute {
    type V = AttributeView;

    open spec fn view(&self) -> AttributeView {
        match self {
            GitCredentialAttribute::Protocol(v) => AttributeView::Protocol(v@),
            GitCredentialAttribute::Host(v) => AttributeView::Host(v@),
            GitCredentialAttribute::Path(v) => AttributeView::Path(v@),
            GitCredentialAttribute::Username(v) => AttributeView::Username(v@),
            GitCredentialAttribute::Password(v) => AttributeView::Password(v@),
            GitCredentialAttribute::Url(v) => AttributeView::Url(v@),
            GitCredentialAttribute::Etc(k, v) => AttributeView::Etc(k@, v@),
        }
    }
}

impl DeepView for GitCredentialAttribute {
    type V = AttributeView;

    open spec fn deep_view(&self) -> AttributeView {
        self@
    }
}

/// A key: not empty, and without `=`, line feed and NUL.
pub open spec fn valid_key(key: Seq<char>) -> bool {
    key.len() > 0 && stop_free(key, true)
}

/// A value: without line feed and NUL.
pub open spec fn valid_value(value: Seq<char>) -> bool {
    stop_free(value, false)
}

impl AttributeView {
    /// The attribute that a line with this key and this value stands for:
    /// the key is matched exactly against the six known keys.
    pub open spec fn of(key: Seq<char>, value: Seq<char>) -> AttributeView {
        if key == "protocol"@ {
            AttributeView::Protocol(value)
        } else if key == "host"@ {
            AttributeView::Host(value)
        } else if key == "path"@ {
            AttributeView::Path(value)
        } else if key == "username"@ {
            AttributeView::Username(value)
        } else if key == "password"@ {
            AttributeView::Password(value)
        } else if key == "url"@ {
            AttributeView::Url(value)
        } else {
            AttributeView::Etc(key, value)
        }
    }

    /// The key as it stands on the line.
    pub open spec fn key(self) -> Seq<char> {
        match self {
            AttributeView::Protocol(_) => "protocol"@,
            AttributeView::Host(_) => "host"@,
            AttributeView::Path(_) => "path"@,
            AttributeView::Username(_) => "username"@,
            AttributeView::Password(_) => "password"@,
            AttributeView::Url(_) => "url"@,
            AttributeView::Etc(key, _) => key,
        }
    }

    /// The value as it stands on the line.
    pub open spec fn value(self) -> Seq<char> {
        match self {
            AttributeView::Protocol(value) => value,
            AttributeView::Host(value) => value,
            AttributeView::Path(value) => value,
            AttributeView::Username(value) => value,
            AttributeView::Password(value) => value,
            AttributeView::Url(value) => value,
            AttributeView::Etc(_, value) => value,
        }
    }

    /// The line without its line feed: key, `=`, value.
    pub open spec fn line(self) -> Seq<char> {
        self.key() + seq!['='] + self.value()
    }

    /// The attribute can be written as a line and read back from it.
    pub open spec fn well_formed(self) -> bool {
        valid_key(self.key()) && valid_value(self.value())
    }

    /// The attribute is the one that its own line stands for: no `Etc` holds
    /// one of the six known keys.
    pub open spec fn canonical(self) -> bool {
        self == AttributeView::of(self.key(), self.value())
    }
}

/// Every attribute of the sequence is well formed.
pub open spec fn all_well_formed(attributes: Seq<AttributeView>) -> bool {
    forall|i: int| 0 <= i < attributes.len() ==> (#[trigger] attributes[i]).well_formed()
}

/// Every attribute of the sequence is canonical.
pub open spec fn all_canonical(attributes: Seq<AttributeView>) -> bool {
    forall|i: int| 0 <= i < attributes.len() ==> (#[trigger] attributes[i]).canonical()
}

/// The lines of the attributes in their order, each with its line feed and
/// nothing after the last: the text of a response.
pub open spec fn encoded(attributes: Seq<AttributeView>) -> Seq<char>
    decreases attributes.len(),
{
    if attributes.len() == 0 {
        Seq::empty()
    } else {
        attributes[0].line() + seq!['\n'] + encoded(attributes.drop_first())
    }
}

/// The lines of the attributes and the blank line that ends a request.
pub open spec fn request_text(attributes: Seq<AttributeView>) -> Seq<char> {
    encoded(attributes) + seq!['\n']
}

/// `input` starts with the request that holds exactly `attributes`.
pub open spec fn is_record_of(input: Seq<char>, attributes: Seq<AttributeView>) -> bool {
    &&& attributes.len() > 0
    &&& all_well_formed(attributes)
    &&& all_canonical(attributes)
    &&& request_text(attributes).is_prefix_of(input)
}

/// The attributes of the request that `input` starts with, if it starts with
/// one. What follows the blank line is not looked at.
pub open spec fn decoded(input: Seq<char>) -> Option<Seq<AttributeView>> {
    if exists|attributes: Seq<AttributeView>| is_record_of(input, attributes) {
        Some(choose|attributes: Seq<AttributeView>| is_record_of(input, attributes))
    } else {
        None
    }
}

/// `input` is `key`, `=`, `value` and `rest`, where `value` runs to the end
/// of the line or of the text.
pub open spec fn splits_as(
    input: Seq<char>,
    key: Seq<char>,
    value: Seq<char>,
    rest: Seq<char>,
) -> bool {
    &&& input == key + seq!['='] + value + rest
    &&& valid_key(key)
    &&& valid_value(value)
    &&& rest.len() > 0 ==> rest[0] == '\n'
}

/// The six known keys are keys, and no two of them are the same.
pub proof fn lemma_known_keys()
    ensures
        valid_key("protocol"@),
        valid_key("host"@),
        valid_key("path"@),
        valid_key("username"@),
        valid_key("password"@),
        valid_key("url"@),
        "protocol"@ != "host"@,
        "protocol"@ != "path"@,
        "protocol"@ != "username"@,
        "protocol"@ != "password"@,
        "protocol"@ != "url"@,
        "host"@ != "path"@,
        "host"@ != "username"@,
        "host"@ != "password"@,
        "host"@ != "url"@,
        "path"@ != "username"@,
        "path"@ != "password"@,
        "path"@ != "url"@,
        "username"@ != "password"@,
        "username"@ != "url"@,
        "password"@ != "url"@,
{
    reveal_strlit("protocol");
    reveal_strlit("host");
    reveal_strlit("path");
    reveal_strlit("username");
    reveal_strlit("password");
    reveal_strlit("url");
    assert("protocol"@[1] != "password"@[1]);
    assert("protocol"@[0] != "username"@[0]);
    assert("username"@[0] != "password"@[0]);
    assert("host"@[0] != "path"@[0]);
}

/// What `of` gives has the key and the value it was given, and is canonical.
proof fn lemma_of(key: Seq<char>, value: Seq<char>)
    ensures
        AttributeView::of(key, value).key() == key,
        AttributeView::of(key, value).value() == value,
        AttributeView::of(key, value).canonical(),
{
    lemma_known_keys();
}

/// A text is cut into key, value and rest in one way only.
pub proof fn lemma_splits_unique(
    input: Seq<char>,
    key: Seq<char>,
    value: Seq<char>,
    rest: Seq<char>,
    other_key: Seq<char>,
    other_value: Seq<char>,
    other_rest: Seq<char>,
)
    requires
        splits_as(input, key, value, rest),
        splits_as(input, other_key, other_value, other_rest),
    ensures
        key == other_key,
        value == other_value,
        rest == other_rest,
{
    let tail = seq!['='] + value + rest;
    let other_tail = seq!['='] + other_value + other_rest;
    assert(input =~= key + tail);
    assert(input =~= other_key + other_tail);
    lemma_cut_unique(input, true, key, tail, other_key, other_tail);
    let line = value + rest;
    assert(line =~= tail.subrange(1, tail.len() as int));
    assert(line =~= other_value + other_rest);
    lemma_cut_unique(line, false, value, rest, other_value, other_rest);
}

impl GitCredentialAttribute {
    /// The attribute that a line with this key and this value stands for.
    pub fn new(key: &str, value: &str) -> (r: GitCredentialAttribute)
        ensures
            r@ == AttributeView::of(key@, value@),
    {
        let value = value.to_owned();
        if same_text(key, "protocol") {
            GitCredentialAttribute::Protocol(value)
        } else if same_text(key, "host") {
            GitCredentialAttribute::Host(value)
        } else if same_text(key, "path") {
            GitCredentialAttribute::Path(value)
        } else if same_text(key, "username") {
            GitCredentialAttribute::Username(value)
        } else if same_text(key, "password") {
            GitCredentialAttribute::Password(value)
        } else if same_text(key, "url") {
            GitCredentialAttribute::Url(value)
        } else {
            GitCredentialAttribute::Etc(key.to_owned(), value)
        }
    }

    /// The key as it stands on the line.
    pub fn key(&self) -> (r: &str)
        ensures
            r@ == self@.key(),
    {
        match self {
            GitCredentialAttribute::Protocol(_) => "protocol",
            GitCredentialAttribute::Host(_) => "host",
            GitCredentialAttribute::Path(_) => "path",
            GitCredentialAttribute::Username(_) => "username",
            GitCredentialAttribute::Password(_) => "password",
            GitCredentialAttribute::Url(_) => "url",
            GitCredentialAttribute::Etc(key, _) => key.as_str(),
        }
    }

    /// The value as it stands on the line.
    pub fn value(&self) -> (r: &str)
        ensures
            r@ == self@.value(),
    {
        match self {
            GitCredentialAttribute::Protocol(value) => value.as_str(),
            GitCredentialAttribute::Host(value) => value.as_str(),
            GitCredentialAttribute::Path(value) => value.as_str(),
            GitCredentialAttribute::Username(value) => value.as_str(),
            GitCredentialAttribute::Password(value) => value.as_str(),
            GitCredentialAttribute::Url(value) => value.as_str(),
            GitCredentialAttribute::Etc(_, value) => value.as_str(),
        }
    }

    /// The line of the attribute without its line feed: key, `=`, value.
    pub fn to_string(&self) -> (r: String)
        ensures
            r@ == self@.line(),
    {
        let mut line = self.key().to_owned();
        line.append("=");
        line.append(self.value());
        proof {
            reveal_strlit("=");
            assert("="@ =~= seq!['=']);
        }
        line
    }

    /// Whether the attribute can be written as a line: its key is a key and
    /// its value is a value.
    pub fn is_well_formed(&self) -> (r: bool)
        ensures
            r == self@.well_formed(),
    {
        let (key, after_key) = split_before_stop(self.key(), true);
        let (value, after_value) = split_before_stop(self.value(), false);
        proof {
            if after_key@.len() > 0 {
                assert(self@.key()[key@.len() as int] == after_key@[0]);
            } else {
                assert(self@.key() =~= key@);
            }
            if after_value@.len() > 0 {
                assert(self@.value()[value@.len() as int] == after_value@[0]);
            } else {
                assert(self@.value() =~= value@);
            }
        }
        !key.is_empty() && after_key.is_empty() && after_value.is_empty()
    }
}

/// The key at the start of `input`: its longest prefix without `=`, line
/// feed and NUL, which must not be empty. Returns what follows, then the key.
pub fn key(input: &str) -> (r: Result<(&str, &str), ProtocolError>)
    ensures
        match r {
            Ok((rest, key)) => {
                &&& input@ == key@ + rest@
                &&& valid_key(key@)
                &&& rest@.len() > 0 ==> is_stop(rest@[0], true)
            },
            Err(_) => input@.len() == 0 || is_stop(input@[0], true),
        },
{
    let (key, rest) = split_before_stop(input, true);
    if key.is_empty() {
        assert(input@ =~= rest@);
        Err(ProtocolError::Malformed)
    } else {
        Ok((rest, key))
    }
}

/// The value at the start of `input`: what stands before the first line feed,
/// or all of `input` if it holds none. Fails if that holds a NUL. Returns
/// what follows, then the value.
pub fn value(input: &str) -> (r: Result<(&str, &str), ProtocolError>)
    ensures
        match r {
            Ok((rest, value)) => {
                &&& input@ == value@ + rest@
                &&& valid_value(value@)
                &&& rest@.len() > 0 ==> rest@[0] == '\n'
            },
            Err(_) => exists|i: int|
                0 <= i < input@.len() && input@[i] == '\0' && stop_free(
                    #[trigger] input@.subrange(0, i),
                    false,
                ),
        },
{
    let (value, rest) = split_before_stop(input, false);
    match strip_char(rest, NUL) {
        Some(_) => {
            proof {
                let i = value@.len() as int;
                assert(input@[i] == rest@[0]);
                assert(input@.subrange(0, i) =~= value@);
            }
            Err(ProtocolError::Malformed)
        },
        None => Ok((rest, value)),
    }
}

/// The key, the `=` and the value at the start of `input`. Returns what
/// follows the value, then the key and the value.
pub fn key_value(input: &str) -> (r: Result<(&str, (&str, &str)), ProtocolError>)
    ensures
        match r {
            Ok((rest, (key, value))) => splits_as(input@, key@, value@, rest@),
            Err(_) => forall|key: Seq<char>, value: Seq<char>, rest: Seq<char>|
                !splits_as(input@, key, value, rest),
        },
{
    let (after_key, name) = match key(input) {
        Ok(found) => found,
        Err(e) => {
            assert forall|k: Seq<char>, v: Seq<char>, rest: Seq<char>| !splits_as(
                input@,
                k,
                v,
                rest,
            ) by {
                if splits_as(input@, k, v, rest) {
                    assert(input@[0] == k[0]);
                }
            }
            return Err(e);
        },
    };
    let after_separator = match strip_char(after_key, SEPARATOR) {
        Some(found) => found,
        None => {
            assert forall|k: Seq<char>, v: Seq<char>, rest: Seq<char>| !splits_as(
                input@,
                k,
                v,
                rest,
            ) by {
                if splits_as(input@, k, v, rest) {
                    let tail = seq!['='] + v + rest;
                    assert(input@ =~= k + tail);
                    lemma_cut_unique(input@, true, name@, after_key@, k, tail);
                }
            }
            return Err(ProtocolError::Malformed);
        },
    };
    let (rest, text) = match value(after_separator) {
        Ok(found) => found,
        Err(e) => {
            assert forall|k: Seq<char>, v: Seq<char>, rest: Seq<char>| !splits_as(
                input@,
                k,
                v,
                rest,
            ) by {
                if splits_as(input@, k, v, rest) {
                    let tail = seq!['='] + v + rest;
                    assert(input@ =~= k + tail);
                    lemma_cut_unique(input@, true, name@, after_key@, k, tail);
                    let line = after_separator@;
                    assert(line =~= tail.subrange(1, tail.len() as int));
                    assert(line =~= v + rest);
                    let i = choose|i: int|
                        0 <= i < line.len() && line[i] == '\0' && stop_free(
                            #[trigger] line.subrange(0, i),
                            false,
                        );
                    let head = line.subrange(0, i);
                    let after = line.subrange(i, line.len() as int);
                    assert(line =~= head + after);
                    lemma_cut_unique(line, false, v, rest, head, after);
                }
            }
            return Err(e);
        },
    };
    proof {
        assert(input@ =~= name@ + seq!['='] + text@ + rest@);
    }
    Ok((rest, (name, text)))
}

/// The attribute that the line at the start of `input` stands for. Returns
/// what follows the value, then the attribute.
pub fn git_credential_attribute(input: &str) -> (r: Result<
    (&str, GitCredentialAttribute),
    ProtocolError,
>)
    ensures
        match r {
            Ok((rest, attribute)) => {
                &&& splits_as(input@, attribute@.key(), attribute@.value(), rest@)
                &&& attribute@.canonical()
            },
            Err(_) => forall|key: Seq<char>, value: Seq<char>, rest: Seq<char>|
                !splits_as(input@, key, value, rest),
        },
{
    match key_value(input) {
        Ok((rest, (key, value))) => {
            proof {
                lemma_of(key@, value@);
            }
            Ok((rest, GitCredentialAttribute::new(key, value)))
        },
        Err(e) => Err(e),
    }
}

/// The lines of two sequences, one after the other, are the lines of the
/// two sequences joined.
pub proof fn lemma_encoded_concat(first: Seq<AttributeView>, second: Seq<AttributeView>)
    ensures
        encoded(first + second) == encoded(first) + encoded(second),
    decreases first.len(),
{
    if first.len() == 0 {
        assert(first + second =~= second);
        assert(encoded(first) + encoded(second) =~= encoded(second));
    } else {
        assert((first + second).drop_first() =~= first.drop_first() + second);
        lemma_encoded_concat(first.drop_first(), second);
        assert(encoded(first + second) =~= encoded(first) + encoded(second));
    }
}

/// One more attribute adds its line and a line feed.
pub proof fn lemma_encoded_push(attributes: Seq<AttributeView>, last: AttributeView)
    ensures
        encoded(attributes.push(last)) == encoded(attributes) + last.line() + seq!['\n'],
{
    let one = seq![last];
    assert(attributes.push(last) =~= attributes + one);
    lemma_encoded_concat(attributes, one);
    assert(one.drop_first() =~= Seq::<AttributeView>::empty());
    assert(encoded(one.drop_first()) =~= Seq::<char>::empty());
    assert(encoded(one) =~= last.line() + seq!['\n']);
    assert(encoded(attributes) + encoded(one) =~= encoded(attributes) + last.line() + seq![
        '\n',
    ]);
}

/// Lines that are not empty start with a character of the first key, which
/// is no line feed.
proof fn lemma_encoded_starts_with_key(attributes: Seq<AttributeView>, rest: Seq<char>)
    requires
        attributes.len() > 0,
        all_well_formed(attributes),
    ensures
        (encoded(attributes) + rest).len() > 0,
        (encoded(attributes) + rest)[0] != '\n',
{
    let first = attributes[0];
    assert(first.well_formed());
    assert((encoded(attributes) + rest)[0] == first.key()[0]);
}

/// Where one text starts with the lines of `shorter` and with those of
/// `longer`, the two agree line by line on keys and values, and what follows
/// the lines of `shorter` starts with the other lines of `longer`.
proof fn lemma_lines_align(
    shorter: Seq<AttributeView>,
    after_shorter: Seq<char>,
    longer: Seq<AttributeView>,
    after_longer: Seq<char>,
)
    requires
        encoded(shorter) + after_shorter == encoded(longer) + after_longer,
        all_well_formed(shorter),
        all_well_formed(longer),
        shorter.len() <= longer.len(),
    ensures
        forall|i: int|
            0 <= i < shorter.len() ==> (#[trigger] shorter[i]).key() == longer[i].key()
                && shorter[i].value() == longer[i].value(),
        after_shorter == encoded(longer.skip(shorter.len() as int)) + after_longer,
    decreases shorter.len(),
{
    if shorter.len() == 0 {
        assert(longer.skip(0) =~= longer);
        assert(encoded(shorter) + after_shorter =~= after_shorter);
    } else {
        let a = shorter[0];
        let b = longer[0];
        assert(a.well_formed() && b.well_formed());
        let text = encoded(shorter) + after_shorter;
        let rest_a = encoded(shorter.drop_first()) + after_shorter;
        let rest_b = encoded(longer.drop_first()) + after_longer;
        let tail_a = seq!['\n'] + rest_a;
        let tail_b = seq!['\n'] + rest_b;
        assert(text =~= a.key() + seq!['='] + a.value() + tail_a);
        assert(text =~= b.key() + seq!['='] + b.value() + tail_b);
        lemma_splits_unique(text, a.key(), a.value(), tail_a, b.key(), b.value(), tail_b);
        assert(rest_a =~= tail_a.subrange(1, tail_a.len() as int));
        assert(rest_b =~= tail_b.subrange(1, tail_b.len() as int));
        assert forall|i: int| 0 <= i < shorter.drop_first().len() implies (
        #[trigger] shorter.drop_first()[i]).well_formed() by {
            assert(shorter.drop_first()[i] == shorter[i + 1]);
        }
        assert forall|i: int| 0 <= i < longer.drop_first().len() implies (
        #[trigger] longer.drop_first()[i]).well_formed() by {
            assert(longer.drop_first()[i] == longer[i + 1]);
        }
        lemma_lines_align(shorter.drop_first(), after_shorter, longer.drop_first(), after_longer);
        assert(longer.drop_first().skip(shorter.drop_first().len() as int) =~= longer.skip(
            shorter.len() as int,
        ));
        assert forall|i: int| 0 <= i < shorter.len() implies (#[trigger] shorter[i]).key()
            == longer[i].key() && shorter[i].value() == longer[i].value() by {
            if i > 0 {
                assert(shorter[i] == shorter.drop_first()[i - 1]);
                assert(longer[i] == longer.drop_first()[i - 1]);
            }
        }
    }
}

/// A canonical attribute is known by its key and its value.
proof fn lemma_canonical_equal(a: AttributeView, b: AttributeView)
    requires
        a.canonical(),
        b.canonical(),
        a.key() == b.key(),
        a.value() == b.value(),
    ensures
        a == b,
{
}

/// A text that starts with a request is the lines of the request, the blank
/// line and what follows.
proof fn lemma_record_text(input: Seq<char>, attributes: Seq<AttributeView>) -> (after: Seq<char>)
    requires
        request_text(attributes).is_prefix_of(input),
    ensures
        input == encoded(attributes) + (seq!['\n'] + after),
        after == input.skip(request_text(attributes).len() as int),
{
    let text = request_text(attributes);
    let after = input.skip(text.len() as int);
    assert(text =~= input.subrange(0, text.len() as int));
    assert(input =~= input.subrange(0, text.len() as int) + after);
    assert(text + after =~= encoded(attributes) + (seq!['\n'] + after));
    after
}

/// Of two requests that a text starts with, the one with fewer attributes
/// is the other.
proof fn lemma_record_unique_ordered(
    input: Seq<char>,
    attributes: Seq<AttributeView>,
    others: Seq<AttributeView>,
)
    requires
        is_record_of(input, attributes),
        is_record_of(input, others),
        attributes.len() <= others.len(),
    ensures
        attributes == others,
{
    let tail = lemma_record_text(input, attributes);
    let tail_others = lemma_record_text(input, others);
    let after = seq!['\n'] + tail;
    let after_others = seq!['\n'] + tail_others;
    lemma_lines_align(attributes, after, others, after_others);
    let more = others.skip(attributes.len() as int);
    if more.len() > 0 {
        assert forall|i: int| 0 <= i < more.len() implies (#[trigger] more[i]).well_formed() by {
            assert(more[i] == others[attributes.len() + i]);
        }
        lemma_encoded_starts_with_key(more, after_others);
    }
    assert forall|i: int| 0 <= i < attributes.len() implies attributes[i] == others[i] by {
        lemma_canonical_equal(attributes[i], others[i]);
    }
    assert(attributes =~= others);
}

/// A text starts with one request at most.
pub proof fn lemma_record_unique(
    input: Seq<char>,
    attributes: Seq<AttributeView>,
    others: Seq<AttributeView>,
)
    requires
        is_record_of(input, attributes),
        is_record_of(input, others),
    ensures
        attributes == others,
{
    if attributes.len() <= others.len() {
        lemma_record_unique_ordered(input, attributes, others);
    } else {
        lemma_record_unique_ordered(input, others, attributes);
    }
}

/// `decoded` gives the attributes of the request that the text starts with.
pub proof fn lemma_decoded(input: Seq<char>, attributes: Seq<AttributeView>)
    requires
        is_record_of(input, attributes),
    ensures
        decoded(input) == Some(attributes),
{
    let chosen = choose|chosen: Seq<AttributeView>| is_record_of(input, chosen);
    lemma_record_unique(input, chosen, attributes);
}

/// Where `input` is the lines of `done` and then `rest`, each request that
/// `input` starts with goes on in `rest`: with the blank line, or with one
/// more line.
proof fn lemma_record_goes_on(
    input: Seq<char>,
    done: Seq<AttributeView>,
    rest: Seq<char>,
    attributes: Seq<AttributeView>,
)
    requires
        input == encoded(done) + rest,
        all_well_formed(done),
        is_record_of(input, attributes),
    ensures
        attributes.len() >= done.len(),
        attributes.len() == done.len() ==> rest.len() > 0 && rest[0] == '\n',
        attributes.len() > done.len() ==> exists|after: Seq<char>|
            splits_as(
                rest,
                attributes[done.len() as int].key(),
                attributes[done.len() as int].value(),
                #[trigger] (seq!['\n'] + after),
            ),
{
    let tail = lemma_record_text(input, attributes);
    let after_record = seq!['\n'] + tail;
    if attributes.len() < done.len() {
        lemma_lines_align(attributes, after_record, done, rest);
        let more = done.skip(attributes.len() as int);
        assert forall|i: int| 0 <= i < more.len() implies (#[trigger] more[i]).well_formed() by {
            assert(more[i] == done[attributes.len() + i]);
        }
        lemma_encoded_starts_with_key(more, rest);
    } else {
        lemma_lines_align(done, rest, attributes, after_record);
        let more = attributes.skip(done.len() as int);
        if more.len() > 0 {
            let next = more[0];
            assert(next == attributes[done.len() as int]);
            assert(next.well_formed());
            let after = encoded(more.drop_first()) + after_record;
            assert(rest =~= next.key() + seq!['='] + next.value() + (seq!['\n'] + after));
            assert(splits_as(rest, next.key(), next.value(), seq!['\n'] + after));
        } else {
            assert(encoded(more) =~= Seq::<char>::empty());
            assert(rest =~= after_record);
        }
    }
}

/// Written as a request and read back, attributes come out as they went
/// in, whatever follows the blank line. This holds of one attribute or more,
/// each well formed and canonical; no other sequence is the reading of any
/// text.
pub proof fn lemma_read_back(attributes: Seq<AttributeView>, after: Seq<char>)
    requires
        attributes.len() > 0,
        all_well_formed(attributes),
        all_canonical(attributes),
    ensures
        decoded(request_text(attributes)) == Some(attributes),
        decoded(request_text(attributes) + after) == Some(attributes),
{
    let text = request_text(attributes);
    assert(text =~= text.subrange(0, text.len() as int));
    assert(text =~= (text + after).subrange(0, text.len() as int));
    lemma_decoded(text, attributes);
    lemma_decoded(text + after, attributes);
}

/// Read and written back as a request, a text comes out as it went in, up
/// to the blank line: the attributes read can be written, and what they give
/// is the start of the text, and all of it where nothing follows the blank
/// line.
pub proof fn lemma_write_back(input: Seq<char>)
    requires
        decoded(input) is Some,
    ensures
        is_record_of(input, decoded(input)->Some_0),
        input.len() == request_text(decoded(input)->Some_0).len() ==> request_text(
            decoded(input)->Some_0,
        ) == input,
{
    let attributes = decoded(input)->Some_0;
    let text = request_text(attributes);
    if input.len() == text.len() {
        assert(input =~= input.subrange(0, text.len() as int));
    }
}

/// A text is no request where, before any blank line, a line holds no `=`.
/// Here `done` stands for the lines before that line, `line` for the line
/// and `after` for what follows it, a line feed first if anything. The one
/// blank line that is no fault is the one after a line or more, which ends
/// the request.
pub proof fn lemma_line_without_separator(
    done: Seq<AttributeView>,
    line: Seq<char>,
    after: Seq<char>,
)
    requires
        all_well_formed(done),
        forall|i: int| 0 <= i < line.len() ==> line[i] != '=' && line[i] != '\n',
        after.len() > 0 ==> after[0] == '\n',
        line.len() > 0 || done.len() == 0 || after.len() == 0,
    ensures
        decoded(encoded(done) + (line + after)) is None,
{
    let rest = line + after;
    let input = encoded(done) + rest;
    assert forall|others: Seq<AttributeView>| !is_record_of(input, others) by {
        if is_record_of(input, others) {
            lemma_record_goes_on(input, done, rest, others);
            if others.len() > done.len() {
                let next = others[done.len() as int];
                let more = choose|more: Seq<char>|
                    splits_as(rest, next.key(), next.value(), #[trigger] (seq!['\n'] + more));
                let at = next.key().len() as int;
                assert(rest[at] == '=');
                if at < line.len() {
                    assert(rest[at] == line[at]);
                } else if after.len() > 0 {
                    assert(rest[line.len() as int] == after[0]);
                    if line.len() < at {
                        assert(rest[line.len() as int] == next.key()[line.len() as int]);
                    }
                }
            }
        }
    }
}

/// The attribute lines at the start of `input`, up to the blank line that
/// ends the request: one line or more of the form `key=value`. Returns what
/// follows the last of them, which starts with the blank line, then the
/// attributes in the order of their lines.
///
/// Fails where `input` does not start with a request: before the blank line
/// stands no line, or a line without `=`, with an empty key or with a NUL;
/// or the blank line is missing.
pub fn git_credential_attributes(input: &str) -> (r: Result<
    (&str, Vec<GitCredentialAttribute>),
    ProtocolError,
>)
    ensures
        match r {
            Ok((rest, attributes)) => {
                &&& decoded(input@) == Some(attributes.deep_view())
                &&& is_record_of(input@, attributes.deep_view())
                &&& input@ == encoded(attributes.deep_view()) + rest@
                &&& rest@.len() > 0 && rest@[0] == '\n'
            },
            Err(e) => e == ProtocolError::Malformed && decoded(input@) is None,
        },
{
    let mut attributes: Vec<GitCredentialAttribute> = Vec::new();
    let mut rest = input;
    assert(encoded(attributes.deep_view()) + rest@ =~= input@);
    loop
        invariant
            input@ == encoded(attributes.deep_view()) + rest@,
            all_well_formed(attributes.deep_view()),
            all_canonical(attributes.deep_view()),
        decreases rest@.len(),
    {
        let ghost done = attributes.deep_view();
        if strip_char(rest, LINE_FEED).is_some() {
            if attributes.len() > 0 {
                proof {
                    assert(request_text(done).is_prefix_of(input@));
                    lemma_decoded(input@, done);
                }
                return Ok((rest, attributes));
            }
            proof {
                assert forall|others: Seq<AttributeView>| !is_record_of(input@, others) by {
                    if is_record_of(input@, others) {
                        lemma_record_goes_on(input@, done, rest@, others);
                        let after = choose|after: Seq<char>|
                            splits_as(
                                rest@,
                                others[0].key(),
                                others[0].value(),
                                #[trigger] (seq!['\n'] + after),
                            );
                        assert(rest@[0] == others[0].key()[0]);
                    }
                }
            }
            return Err(ProtocolError::Malformed);
        }
        let (after_line, attribute) = match git_credential_attribute(rest) {
            Ok(found) => found,
            Err(e) => {
                proof {
                    assert forall|others: Seq<AttributeView>| !is_record_of(input@, others) by {
                        if is_record_of(input@, others) {
                            lemma_record_goes_on(input@, done, rest@, others);
                        }
                    }
                }
                return Err(e);
            },
        };
        let after_feed = match strip_char(after_line, LINE_FEED) {
            Some(found) => found,
            None => {
                proof {
                    assert forall|others: Seq<AttributeView>| !is_record_of(input@, others) by {
                        if is_record_of(input@, others) {
                            lemma_record_goes_on(input@, done, rest@, others);
                            let next = others[done.len() as int];
                            let after = choose|after: Seq<char>|
                                splits_as(
                                    rest@,
                                    next.key(),
                                    next.value(),
                                    #[trigger] (seq!['\n'] + after),
                                );
                            lemma_splits_unique(
                                rest@,
                                attribute@.key(),
                                attribute@.value(),
                                after_line@,
                                next.key(),
                                next.value(),
                                seq!['\n'] + after,
                            );
                        }
                    }
                }
                return Err(ProtocolError::Malformed);
            },
        };
        attributes.push(attribute);
        proof {
            let last = attributes@[attributes.len() - 1]@;
            assert(attributes.deep_view() =~= done.push(last));
            lemma_encoded_push(done, last);
            assert(input@ =~= encoded(done.push(last)) + after_feed@);
        }
        rest = after_feed;
    }
}

/// Reads the request at the start of `input`: one line or more of the form
/// `key=value`, then a blank line. The attributes come in the order of their
/// lines. What follows the blank line is not looked at.
///
/// Fails where `input` does not start with a request: before the blank line
/// stands no line, or a line without `=`, with an empty key or with a NUL;
/// or the blank line is missing.
pub fn parse_git_credential_attributes(input: &str) -> (r: Result<
    Vec<GitCredentialAttribute>,
    ProtocolError,
>)
    ensures
        match r {
            Ok(attributes) => decoded(input@) == Some(attributes.deep_view()),
            Err(e) => e == ProtocolError::Malformed && decoded(input@) is None,
        },
        r matches Ok(attributes) ==> is_record_of(input@, attributes.deep_view()),
        input@.len() > 0 && input@[0] == '\n' ==> r is Err,
{
    proof {
        if input@.len() > 0 && input@[0] == '\n' {
            lemma_line_without_separator(Seq::empty(), Seq::empty(), input@);
            assert(encoded(Seq::<AttributeView>::empty()) + (Seq::<char>::empty() + input@)
                =~= input@);
        }
    }
    match git_credential_attributes(input) {
        Ok((_remain, attributes)) => Ok(attributes),
        Err(e) => Err(e),
    }
}

/// Writes the attributes as lines, each with its line feed and nothing after
/// the last. Nothing is escaped or cut short: an attribute that cannot stand
/// on a line is refused.
///
/// Fails where an attribute is not well formed: its value holds a line feed
/// or a NUL, or its key is empty or holds `=`, a line feed or a NUL.
pub fn encode(attributes: &Vec<GitCredentialAttribute>) -> (r: Result<String, ProtocolError>)
    ensures
        match r {
            Ok(text) => all_well_formed(attributes.deep_view()) && text@ == encoded(
                attributes.deep_view(),
            ),
            Err(e) => e == ProtocolError::Malformed && !all_well_formed(attributes.deep_view()),
        },
        (exists|i: int, j: int|
            0 <= i < attributes.len() && 0 <= j < attributes[i]@.value().len()
                && #[trigger] attributes[i]@.value()[j] == '\n') ==> r is Err,
{
    let ghost all = attributes.deep_view();
    let mut text = String::new();
    let mut i: usize = 0;
    assert(all.take(0) =~= Seq::<AttributeView>::empty());
    while i < attributes.len()
        invariant
            i <= attributes.len(),
            all == attributes.deep_view(),
            text@ == encoded(all.take(i as int)),
            all_well_formed(all.take(i as int)),
        decreases attributes.len() - i,
    {
        let attribute = &attributes[i];
        if !attribute.is_well_formed() {
            assert(!all[i as int].well_formed());
            return Err(ProtocolError::Malformed);
        }
        let line = attribute.to_string();
        text.append(line.as_str());
        text.append("\n");
        proof {
            reveal_strlit("\n");
            assert("\n"@ =~= seq!['\n']);
            assert(all.take(i + 1) =~= all.take(i as int).push(all[i as int]));
            lemma_encoded_push(all.take(i as int), all[i as int]);
        }
        i += 1;
    }
    proof {
        assert(all.take(i as int) =~= all);
        assert forall|i: int, j: int|
            0 <= i < attributes.len() && 0 <= j < attributes[i]@.value().len() implies #[trigger]
        attributes[i]@.value()[j] != '\n' by {
            assert(all[i].well_formed());
        }
    }
    Ok(text)
}

} // verus!
